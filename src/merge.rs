use vstd::prelude::*;
use crate::Difference;
use crate::lcs::{is_common, is_subseq, lemma_subseq_front, Tokens};
use crate::text::{join, join_tokens, lemma_join_concat, lemma_tokens_join, tokenize, tokens, views};

verus! {

/// The text of a run.
pub open spec fn run_text(x: Difference) -> Seq<char> {
    match x {
        Difference::Same(t) => t@,
        Difference::Add(t) => t@,
        Difference::Rem(t) => t@,
    }
}

/// The texts of the `Same` and `Rem` runs, in order: what the original text is made of.
pub open spec fn old_runs(ds: Seq<Difference>) -> Seq<Seq<char>>
    decreases ds.len(),
{
    if ds.len() == 0 {
        Seq::empty()
    } else {
        let rest = old_runs(ds.drop_last());
        match ds.last() {
            Difference::Add(_) => rest,
            _ => rest.push(run_text(ds.last())),
        }
    }
}

/// The texts of the `Same` and `Add` runs, in order: what the edited text is made of.
pub open spec fn new_runs(ds: Seq<Difference>) -> Seq<Seq<char>>
    decreases ds.len(),
{
    if ds.len() == 0 {
        Seq::empty()
    } else {
        let rest = new_runs(ds.drop_last());
        match ds.last() {
            Difference::Rem(_) => rest,
            _ => rest.push(run_text(ds.last())),
        }
    }
}

/// The original text that a changeset describes.
pub open spec fn original_of(ds: Seq<Difference>, d: Seq<char>) -> Seq<char> {
    join(old_runs(ds), d)
}

/// The edited text that a changeset describes.
pub open spec fn edited_of(ds: Seq<Difference>, d: Seq<char>) -> Seq<char> {
    join(new_runs(ds), d)
}

/// The texts of the `Same` runs, in order: what both texts share.
pub open spec fn same_runs(ds: Seq<Difference>) -> Seq<Seq<char>>
    decreases ds.len(),
{
    if ds.len() == 0 {
        Seq::empty()
    } else {
        let rest = same_runs(ds.drop_last());
        match ds.last() {
            Difference::Same(_) => rest.push(run_text(ds.last())),
            _ => rest,
        }
    }
}

/// 0 for `Same`, 1 for `Rem`, 2 for `Add`.
pub open spec fn kind(x: Difference) -> int {
    match x {
        Difference::Same(_) => 0,
        Difference::Rem(_) => 1,
        Difference::Add(_) => 2,
    }
}

/// Neighbouring runs differ in kind: runs of one kind are never split.
pub open spec fn runs_grouped(ds: Seq<Difference>) -> bool {
    forall|i: int| 0 <= i < ds.len() - 1 ==> kind(#[trigger] ds[i]) != kind(ds[i + 1])
}

/// No `Add` run comes right before a `Rem` run: in each gap between shared
/// runs, what was removed comes first.
pub open spec fn rem_before_add(ds: Seq<Difference>) -> bool {
    forall|i: int| 0 <= i < ds.len() - 1 ==> !(kind(#[trigger] ds[i]) == 2 && kind(ds[i + 1]) == 1)
}

/// Appending a run of the tokens `t[lo..hi]` to runs that spell `t[..lo]`
/// gives runs that spell `t[..hi]`.
proof fn lemma_spell_extend(runs: Seq<Seq<char>>, t: Seq<Seq<char>>, lo: int, hi: int, d: Seq<char>)
    requires
        0 <= lo < hi <= t.len(),
        runs.len() == 0 <==> lo == 0,
        lo > 0 ==> join(runs, d) == join(t.subrange(0, lo), d),
    ensures
        join(runs.push(join(t.subrange(lo, hi), d)), d) == join(t.subrange(0, hi), d),
{
    let x = join(t.subrange(lo, hi), d);
    if lo == 0 {
        assert(runs.push(x) =~= seq![x]);
    } else {
        lemma_join_concat(runs, seq![x], d);
        assert(runs + seq![x] =~= runs.push(x));
        lemma_join_concat(t.subrange(0, lo), t.subrange(lo, hi), d);
        assert(t.subrange(0, lo) + t.subrange(lo, hi) =~= t.subrange(0, hi));
    }
}

/// The runs that spell the first `i` tokens of `t`.
pub open spec fn spells(runs: Seq<Seq<char>>, t: Seq<Seq<char>>, i: int, d: Seq<char>) -> bool {
    &&& runs.len() == 0 <==> i == 0
    &&& i > 0 ==> join(runs, d) == join(t.subrange(0, i), d)
}

/// What appending one run does to the spelled texts and to the order of kinds.
proof fn lemma_push_run(ds: Seq<Difference>, x: Difference)
    requires
        runs_grouped(ds),
        ds.len() > 0 ==> kind(ds.last()) != kind(x),
    ensures
        runs_grouped(ds.push(x)),
        rem_before_add(ds) && (ds.len() > 0 ==> !(kind(ds.last()) == 2 && kind(x) == 1))
            ==> rem_before_add(ds.push(x)),
        old_runs(ds.push(x)) == if kind(x) == 2 {
            old_runs(ds)
        } else {
            old_runs(ds).push(run_text(x))
        },
        new_runs(ds.push(x)) == if kind(x) == 1 {
            new_runs(ds)
        } else {
            new_runs(ds).push(run_text(x))
        },
        same_runs(ds.push(x)) == if kind(x) == 0 {
            same_runs(ds).push(run_text(x))
        } else {
            same_runs(ds)
        },
        ds.push(x).last() == x,
        run_views(ds.push(x)) == run_views(ds).push(run_view(x)),
{
    let e = ds.push(x);
    assert(e.drop_last() =~= ds);
    assert(run_views(e) =~= run_views(ds).push(run_view(x)));
    assert forall|i: int| 0 <= i < e.len() - 1 implies kind(#[trigger] e[i]) != kind(e[i + 1]) by {
        if i < ds.len() - 1 {
            assert(e[i] == ds[i] && e[i + 1] == ds[i + 1]);
        } else {
            assert(e[i] == ds.last());
        }
    }
    if rem_before_add(ds) && (ds.len() > 0 ==> !(kind(ds.last()) == 2 && kind(x) == 1)) {
        assert forall|i: int| 0 <= i < e.len() - 1 implies !(kind(#[trigger] e[i]) == 2 && kind(
            e[i + 1],
        ) == 1) by {
            if i < ds.len() - 1 {
                assert(e[i] == ds[i] && e[i + 1] == ds[i + 1]);
            } else {
                assert(e[i] == ds.last());
            }
        }
    }
}

/// The next original and edited tokens both equal the next anchor.
pub open spec fn same_go(l: Seq<Seq<char>>, r: Seq<Seq<char>>, c: Seq<Seq<char>>, i: int, j: int, h: int) -> bool {
    i < l.len() && j < r.len() && h < c.len() && l[i] == c[h] && r[j] == c[h]
}

/// The next original token is removed: it is not matched against the next anchor.
pub open spec fn rem_go(l: Seq<Seq<char>>, r: Seq<Seq<char>>, c: Seq<Seq<char>>, i: int, j: int, h: int) -> bool {
    i < l.len() && (j >= r.len() || h >= c.len() || l[i] != c[h])
}

/// The next edited token is added: it is not matched against the next anchor.
pub open spec fn add_go(l: Seq<Seq<char>>, r: Seq<Seq<char>>, c: Seq<Seq<char>>, i: int, j: int, h: int) -> bool {
    j < r.len() && (i >= l.len() || h >= c.len() || r[j] != c[h])
}

/// The anchors left are a common subsequence of the tokens left.
pub open spec fn anchored(l: Seq<Seq<char>>, r: Seq<Seq<char>>, c: Seq<Seq<char>>, i: int, j: int, h: int) -> bool {
    is_subseq(c.subrange(h, c.len() as int), l.subrange(i, l.len() as int)) && is_subseq(
        c.subrange(h, c.len() as int),
        r.subrange(j, r.len() as int),
    )
}

/// Skipping one token of `t` that differs from the next anchor, or taking
/// one equal to it, keeps the anchors a subsequence.
proof fn lemma_anchor_step(c: Seq<Seq<char>>, t: Seq<Seq<char>>, h: int, i: int)
    requires
        0 <= h < c.len(),
        0 <= i <= t.len(),
        is_subseq(c.subrange(h, c.len() as int), t.subrange(i, t.len() as int)),
    ensures
        i < t.len(),
        t[i] == c[h] ==> is_subseq(c.subrange(h + 1, c.len() as int), t.subrange(i + 1, t.len() as int)),
        t[i] != c[h] ==> is_subseq(c.subrange(h, c.len() as int), t.subrange(i + 1, t.len() as int)),
{
    let cs = c.subrange(h, c.len() as int);
    let ts = t.subrange(i, t.len() as int);
    lemma_subseq_front(cs, ts);
    assert(cs.drop_first() =~= c.subrange(h + 1, c.len() as int));
    assert(ts.drop_first() =~= t.subrange(i + 1, t.len() as int));
}

proof fn lemma_anchor_end(c: Seq<Seq<char>>, t: Seq<Seq<char>>, h: int)
    requires
        0 <= h <= c.len(),
        is_subseq(c.subrange(h, c.len() as int), t.subrange(t.len() as int, t.len() as int)),
    ensures
        h == c.len(),
{
    if h < c.len() {
        lemma_anchor_step(c, t, h, t.len() as int);
    }
}

/// A run seen as its kind and its text.
pub open spec fn run_view(x: Difference) -> (int, Seq<char>) {
    (kind(x), run_text(x))
}

/// The runs seen as kinds and texts.
pub open spec fn run_views(ds: Seq<Difference>) -> Seq<(int, Seq<char>)> {
    ds.map_values(|x: Difference| run_view(x))
}

/// How many tokens, from `(i, j, h)` on, match the next anchor on both sides.
pub open spec fn same_len(l: Tokens, r: Tokens, c: Tokens, i: int, j: int, h: int) -> nat
    decreases l.len() - i,
{
    if same_go(l, r, c, i, j, h) {
        1 + same_len(l, r, c, i + 1, j + 1, h + 1)
    } else {
        0
    }
}

/// How many original tokens, from `i` on, are removed before the next anchor.
pub open spec fn rem_len(l: Tokens, r: Tokens, c: Tokens, i: int, j: int, h: int) -> nat
    decreases l.len() - i,
{
    if rem_go(l, r, c, i, j, h) {
        1 + rem_len(l, r, c, i + 1, j, h)
    } else {
        0
    }
}

/// How many edited tokens, from `j` on, are added before the next anchor.
pub open spec fn add_len(l: Tokens, r: Tokens, c: Tokens, i: int, j: int, h: int) -> nat
    decreases r.len() - j,
{
    if add_go(l, r, c, i, j, h) {
        1 + add_len(l, r, c, i, j + 1, h)
    } else {
        0
    }
}

/// One run of kind `k` made of the tokens `t[lo..hi]`, if that range is not empty.
pub open spec fn run_of(k: int, t: Tokens, lo: int, hi: int, d: Seq<char>) -> Seq<(int, Seq<char>)> {
    if lo < hi {
        seq![(k, join(t.subrange(lo, hi), d))]
    } else {
        Seq::empty()
    }
}

/// The runs of the walk over original tokens `l`, edited tokens `r` and
/// anchors `c`, from original position `i`, edited position `j` and anchor
/// `h` on. Each round takes, in order: the tokens that match the next anchor
/// on both sides (a `Same` run); the original tokens up to the next anchor (a
/// `Rem` run); the edited tokens up to the next anchor (an `Add` run). Once
/// one side is used up, or no anchor is left, the other side's tokens go
/// into one run. Each run holds one or more whole tokens.
pub open spec fn walk(l: Tokens, r: Tokens, c: Tokens, d: Seq<char>, i: int, j: int, h: int) -> Seq<(int, Seq<char>)>
    decreases (l.len() - i) + (r.len() - j),
{
    let s = same_len(l, r, c, i, j, h);
    let p = rem_len(l, r, c, i + s, j + s, h + s);
    let q = add_len(l, r, c, i + s + p, j + s, h + s);
    if i < 0 || j < 0 || s + p + q == 0 || i + s + p > l.len() || j + s + q > r.len() {
        Seq::empty()
    } else {
        run_of(0, l, i, i + s, d) + run_of(1, l, i + s, i + s + p, d) + run_of(2, r, j + s, j + s + q, d)
            + walk(l, r, c, d, i + s + p, j + s + q, h + s)
    }
}

/// Each run of the walk holds at least one token, so there are no more runs
/// than tokens left on both sides.
pub proof fn lemma_walk_len(l: Tokens, r: Tokens, c: Tokens, d: Seq<char>, i: int, j: int, h: int)
    requires
        0 <= i <= l.len(),
        0 <= j <= r.len(),
    ensures
        walk(l, r, c, d, i, j, h).len() <= (l.len() - i) + (r.len() - j),
    decreases (l.len() - i) + (r.len() - j),
{
    let s = same_len(l, r, c, i, j, h);
    let p = rem_len(l, r, c, i + s, j + s, h + s);
    let q = add_len(l, r, c, i + s + p, j + s, h + s);
    if !(s + p + q == 0 || i + s + p > l.len() || j + s + q > r.len()) {
        lemma_walk_len(l, r, c, d, i + s + p, j + s + q, h + s);
    }
}

/// What holds between rounds of the walk: the runs so far spell the tokens
/// taken so far, neighbouring runs differ in kind, and which loops of the
/// next round can take a token, given the kind of the last run.
pub open spec fn walk_state(
    lt: Tokens,
    rt: Tokens,
    ct: Tokens,
    d: Seq<char>,
    out: Seq<Difference>,
    i: int,
    j: int,
    h: int,
) -> bool {
    let hyp = is_common(ct, lt, rt);
    &&& 0 <= i <= lt.len()
    &&& 0 <= j <= rt.len()
    &&& 0 <= h <= ct.len()
    &&& spells(old_runs(out), lt, i, d)
    &&& spells(new_runs(out), rt, j, d)
    &&& spells(same_runs(out), ct, h, d)
    &&& runs_grouped(out)
    &&& hyp ==> rem_before_add(out)
    &&& hyp ==> anchored(lt, rt, ct, i, j, h)
    &&& out.len() > 0 ==> !add_go(lt, rt, ct, i, j, h)
    &&& out.len() > 0 && kind(out.last()) != 2 ==> !rem_go(lt, rt, ct, i, j, h)
    &&& out.len() > 0 && kind(out.last()) == 0 ==> !same_go(lt, rt, ct, i, j, h)
    &&& hyp && out.len() > 0 && kind(out.last()) == 2 ==> !rem_go(lt, rt, ct, i, j, h) || same_go(
        lt,
        rt,
        ct,
        i,
        j,
        h,
    )
}

/// One round of the walk: appends its runs to `out` and returns the new
/// original, edited and anchor positions.
#[verifier::loop_isolation(false)]
#[verifier::rlimit(100)]
fn merge_round(
    l: &Vec<String>,
    r: &Vec<String>,
    c: &Vec<String>,
    split: &str,
    out: &mut Vec<Difference>,
    i_in: usize,
    j_in: usize,
    h_in: usize,
) -> (res: (usize, usize, usize))
    requires
        walk_state(views(l@), views(r@), views(c@), split@, old(out)@, i_in as int, j_in as int, h_in as int),
        i_in < l@.len() || j_in < r@.len(),
    ensures
        walk_state(views(l@), views(r@), views(c@), split@, final(out)@, res.0 as int, res.1 as int, res.2 as int),
        res.0 >= i_in,
        res.1 >= j_in,
        res.0 + res.1 > i_in + j_in,
        run_views(final(out)@) + walk(views(l@), views(r@), views(c@), split@, res.0 as int, res.1 as int, res.2 as int)
            == run_views(old(out)@) + walk(views(l@), views(r@), views(c@), split@, i_in as int, j_in as int, h_in as int),
{
    let ghost lt = views(l@);
    let ghost rt = views(r@);
    let ghost ct = views(c@);
    let ghost hyp = is_common(ct, lt, rt);
    let ghost out0 = out@;
    let ghost mut pv: Seq<(int, Seq<char>)> = Seq::empty();
    let nl = l.len();
    let nr = r.len();
    let nc = c.len();
    let mut i = i_in;
    let mut j = j_in;
    let mut h = h_in;
        let ghost i0 = i;
        let ghost j0 = j;
        let s_i = i;
        let s_j = j;
        let s_h = h;
        while i < nl && j < nr && h < nc && l[i] == c[h] && r[j] == c[h]
            invariant
                lt == views(l@),
                rt == views(r@),
                ct == views(c@),
                hyp == is_common(ct, lt, rt),
                nl == l@.len(),
                nr == r@.len(),
                nc == c@.len(),
                s_i <= i <= nl,
                s_j <= j <= nr,
                s_h <= h <= nc,
                i - s_i == j - s_j,
                h - s_h == i - s_i,
                forall|t: int| 0 <= t < i - s_i ==> lt[s_i + t] == #[trigger] rt[s_j + t],
                forall|t: int| 0 <= t < i - s_i ==> lt[s_i + t] == #[trigger] ct[s_h + t],
                same_len(lt, rt, ct, s_i as int, s_j as int, s_h as int) == (i - s_i) + same_len(
                    lt,
                    rt,
                    ct,
                    i as int,
                    j as int,
                    h as int,
                ),
                hyp ==> anchored(lt, rt, ct, i as int, j as int, h as int),
            decreases nl - i,
        {
            proof {
                if hyp {
                    lemma_anchor_step(ct, lt, h as int, i as int);
                    lemma_anchor_step(ct, rt, h as int, j as int);
                }
            }
            assert(lt[i as int] == rt[j as int]);
            assert(lt[i as int] == ct[h as int]);
            i = i + 1;
            j = j + 1;
            h = h + 1;
        }
        let ghost s_i_end = i;
        let ghost s_j_end = j;
        if i > s_i {
            let text = join_tokens(l, s_i, i, split);
            proof {
                assert forall|t: int| 0 <= t < i - s_i implies lt.subrange(s_i as int, i as int)[t]
                    == rt.subrange(s_j as int, j as int)[t] by {
                    assert(lt[s_i + t] == rt[s_j + t]);
                }
                assert(lt.subrange(s_i as int, i as int) =~= rt.subrange(s_j as int, j as int));
                assert forall|t: int| 0 <= t < i - s_i implies lt.subrange(s_i as int, i as int)[t]
                    == ct.subrange(s_h as int, h as int)[t] by {
                    assert(lt[s_i + t] == ct[s_h + t]);
                }
                assert(lt.subrange(s_i as int, i as int) =~= ct.subrange(s_h as int, h as int));
                lemma_spell_extend(old_runs(out@), lt, s_i as int, i as int, split@);
                lemma_spell_extend(new_runs(out@), rt, s_j as int, j as int, split@);
                lemma_spell_extend(same_runs(out@), ct, s_h as int, h as int, split@);
                lemma_push_run(out@, Difference::Same(text));
            }
            proof {
                pv = pv.push((0int, text@));
            }
            out.push(Difference::Same(text));
        }
        let r_i = i;
        while i < nl && (j >= nr || h >= nc || !(l[i] == c[h]))
            invariant
                lt == views(l@),
                rt == views(r@),
                ct == views(c@),
                hyp == is_common(ct, lt, rt),
                nl == l@.len(),
                nr == r@.len(),
                nc == c@.len(),
                h <= nc,
                r_i <= i <= nl,
                j <= nr,
                rem_len(lt, rt, ct, r_i as int, j as int, h as int) == (i - r_i) + rem_len(
                    lt,
                    rt,
                    ct,
                    i as int,
                    j as int,
                    h as int,
                ),
                hyp ==> anchored(lt, rt, ct, i as int, j as int, h as int),
            decreases nl - i,
        {
            proof {
                if hyp && h < nc {
                    lemma_anchor_step(ct, rt, h as int, j as int);
                    lemma_anchor_step(ct, lt, h as int, i as int);
                }
            }
            i = i + 1;
        }
        if i > r_i {
            let text = join_tokens(l, r_i, i, split);
            proof {
                lemma_spell_extend(old_runs(out@), lt, r_i as int, i as int, split@);
                lemma_push_run(out@, Difference::Rem(text));
            }
            proof {
                pv = pv.push((1int, text@));
            }
            out.push(Difference::Rem(text));
        }
        let a_j = j;
        while j < nr && (i >= nl || h >= nc || !(r[j] == c[h]))
            invariant
                lt == views(l@),
                rt == views(r@),
                ct == views(c@),
                hyp == is_common(ct, lt, rt),
                nl == l@.len(),
                nr == r@.len(),
                nc == c@.len(),
                h <= nc,
                a_j <= j <= nr,
                i <= nl,
                add_len(lt, rt, ct, i as int, a_j as int, h as int) == (j - a_j) + add_len(
                    lt,
                    rt,
                    ct,
                    i as int,
                    j as int,
                    h as int,
                ),
                hyp ==> anchored(lt, rt, ct, i as int, j as int, h as int),
            decreases nr - j,
        {
            proof {
                if hyp && h < nc {
                    lemma_anchor_step(ct, rt, h as int, j as int);
                }
            }
            j = j + 1;
        }
        proof {
            if hyp && i < nl && h < nc {
                lemma_anchor_step(ct, rt, h as int, j as int);
            }
        }
        if j > a_j {
            let text = join_tokens(r, a_j, j, split);
            proof {
                lemma_spell_extend(new_runs(out@), rt, a_j as int, j as int, split@);
                lemma_push_run(out@, Difference::Add(text));
            }
            proof {
                pv = pv.push((2int, text@));
            }
            out.push(Difference::Add(text));
        }
        proof {
            assert(i > i0 || j > j0);
            let s = same_len(lt, rt, ct, i0 as int, j0 as int, s_h as int);
            assert(s == s_i_end - i0);
            assert(run_of(0, lt, i0 as int, s_i_end as int, split@) + run_of(1, lt, s_i_end as int, i as int, split@)
                + run_of(2, rt, s_j_end as int, j as int, split@) =~= pv);
            assert(walk(lt, rt, ct, split@, i0 as int, j0 as int, s_h as int) == pv + walk(lt, rt, ct, split@, i as int, j as int, h as int));
            assert(run_views(out@) =~= run_views(out0) + pv);
        }
    (i, j, h)
}

/// Walks the original tokens `l`, the edited tokens `r` and the anchor
/// tokens `c` together: tokens that match the next anchor on both sides
/// form `Same` runs; other original tokens form `Rem` runs and other edited
/// tokens `Add` runs, each `Rem` run before the `Add` run of the same gap.
pub fn merge_tokens(l: &Vec<String>, r: &Vec<String>, c: &Vec<String>, split: &str) -> (out: Vec<Difference>)
    ensures
        run_views(out@) == walk(views(l@), views(r@), views(c@), split@, 0, 0, 0),
        spells(old_runs(out@), views(l@), l@.len() as int, split@),
        spells(new_runs(out@), views(r@), r@.len() as int, split@),
        runs_grouped(out@),
        is_common(views(c@), views(l@), views(r@)) ==> rem_before_add(out@) && spells(
            same_runs(out@),
            views(c@),
            c@.len() as int,
            split@,
        ),
{
    let ghost lt = views(l@);
    let ghost rt = views(r@);
    let ghost ct = views(c@);
    let nl = l.len();
    let nr = r.len();
    let mut out: Vec<Difference> = Vec::new();
    let mut i: usize = 0;
    let mut j: usize = 0;
    let mut h: usize = 0;
    proof {
        assert(ct.subrange(0, ct.len() as int) =~= ct);
        assert(lt.subrange(0, nl as int) =~= lt);
        assert(rt.subrange(0, nr as int) =~= rt);
        assert(run_views(out@) =~= Seq::<(int, Seq<char>)>::empty());
    }
    while i < nl || j < nr
        invariant
            lt == views(l@),
            rt == views(r@),
            ct == views(c@),
            nl == l@.len(),
            nr == r@.len(),
            walk_state(lt, rt, ct, split@, out@, i as int, j as int, h as int),
            run_views(out@) + walk(lt, rt, ct, split@, i as int, j as int, h as int) == walk(
                lt,
                rt,
                ct,
                split@,
                0,
                0,
                0,
            ),
        decreases (nl - i) + (nr - j),
    {
        let (i2, j2, h2) = merge_round(l, r, c, split, &mut out, i, j, h);
        i = i2;
        j = j2;
        h = h2;
    }
    proof {
        if is_common(ct, lt, rt) {
            lemma_anchor_end(ct, lt, h as int);
        }
        assert(walk(lt, rt, ct, split@, i as int, j as int, h as int) =~= Seq::<(int, Seq<char>)>::empty());
        assert(run_views(out@) + Seq::<(int, Seq<char>)>::empty() =~= run_views(out@));
    }
    out
}

/// Merges the changes between `orig` and `edit` into ordered runs, anchored
/// on the tokens of `common` (all three split by `split`). Where `common`
/// has no tokens left to anchor on, the remaining original tokens form one
/// `Rem` run and the remaining edited tokens one `Add` run after it.
pub fn merge(orig: &str, edit: &str, common: &str, split: &str) -> (r: Vec<Difference>)
    ensures
        run_views(r@) == walk(
            tokens(orig@, split@),
            tokens(edit@, split@),
            tokens(common@, split@),
            split@,
            0,
            0,
            0,
        ),
        original_of(r@, split@) == orig@,
        edited_of(r@, split@) == edit@,
        spells(old_runs(r@), tokens(orig@, split@), tokens(orig@, split@).len() as int, split@),
        spells(new_runs(r@), tokens(edit@, split@), tokens(edit@, split@).len() as int, split@),
        runs_grouped(r@),
        r@.len() <= tokens(orig@, split@).len() + tokens(edit@, split@).len(),
        is_common(tokens(common@, split@), tokens(orig@, split@), tokens(edit@, split@))
            ==> rem_before_add(r@) && join(same_runs(r@), split@) == common@ && spells(
            same_runs(r@),
            tokens(common@, split@),
            tokens(common@, split@).len() as int,
            split@,
        ),
{
    let l = tokenize(orig, split);
    let rt = tokenize(edit, split);
    let c = tokenize(common, split);
    let out = merge_tokens(&l, &rt, &c, split);
    proof {
        lemma_walk_len(views(l@), views(rt@), views(c@), split@, 0, 0, 0);
        assert(out@.len() == run_views(out@).len());
        lemma_tokens_join(orig@, split@);
        lemma_tokens_join(edit@, split@);
        lemma_tokens_join(common@, split@);
        let cv = views(c@);
        assert(cv.subrange(0, cv.len() as int) =~= cv);
        let lv = views(l@);
        let rv = views(rt@);
        assert(lv.subrange(0, lv.len() as int) =~= lv);
        assert(rv.subrange(0, rv.len() as int) =~= rv);
    }
    out
}

} // verus!
