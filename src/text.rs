use vstd::prelude::*;
use vstd::string::*;

verus! {

/// The pieces of `s[start..]` cut at each occurrence of the non-empty
/// delimiter `d`, scanning from `i` for the next occurrence (leftmost first).
pub open spec fn pieces(s: Seq<char>, d: Seq<char>, start: int, i: int) -> Seq<Seq<char>>
    decreases s.len() - i,
{
    if d.len() == 0 || i < start || start < 0 || i + d.len() > s.len() {
        seq![s.subrange(start, s.len() as int)]
    } else if s.subrange(i, i + d.len()) == d {
        seq![s.subrange(start, i)] + pieces(s, d, i + d.len(), i + d.len())
    } else {
        pieces(s, d, start, i + 1)
    }
}

/// The token sequence of `s` under delimiter `d`: single characters when `d`
/// is empty, otherwise the pieces between the occurrences of `d`.
pub open spec fn tokens(s: Seq<char>, d: Seq<char>) -> Seq<Seq<char>> {
    if d.len() == 0 {
        s.map_values(|c: char| seq![c])
    } else {
        pieces(s, d, 0, 0)
    }
}

/// The tokens of `t` with `d` between each two neighbours.
pub open spec fn join(t: Seq<Seq<char>>, d: Seq<char>) -> Seq<char>
    decreases t.len(),
{
    if t.len() == 0 {
        Seq::empty()
    } else if t.len() == 1 {
        t[0]
    } else {
        t[0] + d + join(t.drop_first(), d)
    }
}

/// The views of a vector of strings.
pub open spec fn views(v: Seq<String>) -> Seq<Seq<char>> {
    v.map_values(|t: String| t@)
}

/// Joining two non-empty token sequences one after the other.
pub proof fn lemma_join_concat(t1: Seq<Seq<char>>, t2: Seq<Seq<char>>, d: Seq<char>)
    requires
        t1.len() > 0,
        t2.len() > 0,
    ensures
        join(t1 + t2, d) == join(t1, d) + d + join(t2, d),
    decreases t1.len(),
{
    if t1.len() == 1 {
        assert((t1 + t2).drop_first() =~= t2);
    } else {
        assert((t1 + t2).drop_first() =~= t1.drop_first() + t2);
        lemma_join_concat(t1.drop_first(), t2, d);
        assert(t1[0] + d + (join(t1.drop_first(), d) + d + join(t2, d)) =~= t1[0] + d + join(
            t1.drop_first(),
            d,
        ) + d + join(t2, d));
    }
}

/// Joining the pieces gives back the text they were cut from.
proof fn lemma_pieces_join(s: Seq<char>, d: Seq<char>, start: int, i: int)
    requires
        d.len() > 0,
        0 <= start <= i,
    ensures
        pieces(s, d, start, i).len() > 0,
        join(pieces(s, d, start, i), d) == s.subrange(start, s.len() as int),
    decreases s.len() - i,
{
    if i + d.len() > s.len() {
    } else if s.subrange(i, i + d.len()) == d {
        let rest = pieces(s, d, i + d.len(), i + d.len());
        lemma_pieces_join(s, d, i + d.len(), i + d.len());
        let p = seq![s.subrange(start, i)] + rest;
        assert(p.drop_first() =~= rest);
        assert(s.subrange(start, s.len() as int) =~= s.subrange(start, i) + d + s.subrange(
            i + d.len(),
            s.len() as int,
        ));
    } else {
        lemma_pieces_join(s, d, start, i + 1);
    }
}

/// Joining the characters with nothing between them.
proof fn lemma_chars_join(s: Seq<char>)
    ensures
        join(s.map_values(|c: char| seq![c]), Seq::empty()) == s,
    decreases s.len(),
{
    let t = s.map_values(|c: char| seq![c]);
    if s.len() == 0 {
        assert(s =~= Seq::<char>::empty());
    } else if s.len() == 1 {
        assert(t[0] =~= s);
    } else {
        lemma_chars_join(s.drop_first());
        assert(t.drop_first() =~= s.drop_first().map_values(|c: char| seq![c]));
        assert(s =~= seq![s[0]] + Seq::<char>::empty() + s.drop_first());
    }
}

/// Each cut consumes at least one character.
proof fn lemma_pieces_len(s: Seq<char>, d: Seq<char>, start: int, i: int)
    requires
        d.len() > 0,
        0 <= start <= i <= s.len(),
    ensures
        pieces(s, d, start, i).len() <= s.len() - i + 1,
    decreases s.len() - i,
{
    if i + d.len() > s.len() {
    } else if s.subrange(i, i + d.len()) == d {
        lemma_pieces_len(s, d, i + d.len(), i + d.len());
    } else {
        lemma_pieces_len(s, d, start, i + 1);
    }
}

/// A string has at most one token more than it has characters.
pub proof fn lemma_tokens_len(s: Seq<char>, d: Seq<char>)
    ensures
        tokens(s, d).len() <= s.len() + 1,
{
    if d.len() > 0 {
        lemma_pieces_len(s, d, 0, 0);
    }
}

/// Joining the tokens of `s` with the delimiter gives `s` back.
pub proof fn lemma_tokens_join(s: Seq<char>, d: Seq<char>)
    ensures
        join(tokens(s, d), d) == s,
        d.len() > 0 ==> tokens(s, d).len() > 0,
{
    if d.len() == 0 {
        lemma_chars_join(s);
        assert(d =~= Seq::<char>::empty());
    } else {
        lemma_pieces_join(s, d, 0, 0);
        assert(s.subrange(0, s.len() as int) =~= s);
    }
}

/// The characters of `s`, one per element.
pub fn chars_of(s: &str) -> (r: Vec<char>)
    ensures
        r@ == s@,
{
    let n = s.unicode_len();
    let mut r: Vec<char> = Vec::new();
    let mut i: usize = 0;
    while i < n
        invariant
            n == s@.len(),
            i <= n,
            r@ == s@.subrange(0, i as int),
        decreases n - i,
    {
        r.push(s.get_char(i));
        i = i + 1;
    }
    assert(r@ =~= s@);
    r
}

/// Whether `d` occurs in `s` at position `i`.
fn occurs_at(s: &Vec<char>, d: &Vec<char>, i: usize) -> (r: bool)
    requires
        i + d@.len() <= s@.len(),
    ensures
        r == (s@.subrange(i as int, i + d@.len()) == d@),
{
    let n = s.len();
    let mut j: usize = 0;
    while j < d.len()
        invariant
            n == s@.len(),
            i + d@.len() <= s@.len(),
            j <= d@.len(),
            forall|m: int| 0 <= m < j ==> s@[i + m] == d@[m],
        decreases d@.len() - j,
    {
        assert(i + j < s@.len());
        if s[i + j] != d[j] {
            assert(s@.subrange(i as int, i + d@.len())[j as int] != d@[j as int]);
            return false;
        }
        j = j + 1;
    }
    assert(s@.subrange(i as int, i + d@.len()) =~= d@);
    true
}

/// Splits `s` into its tokens under delimiter `d`.
pub fn tokenize(s: &str, d: &str) -> (r: Vec<String>)
    ensures
        views(r@) == tokens(s@, d@),
{
    let n = s.unicode_len();
    let mut out: Vec<String> = Vec::new();
    if d.unicode_len() == 0 {
        let mut i: usize = 0;
        while i < n
            invariant
                n == s@.len(),
                i <= n,
                d@.len() == 0,
                views(out@) =~= tokens(s@, d@).subrange(0, i as int),
            decreases n - i,
        {
            let piece = String::from_str(s.substring_char(i, i + 1));
            assert(piece@ =~= seq![s@[i as int]]);
            let ghost before = views(out@);
            out.push(piece);
            assert(views(out@) =~= before.push(piece@));
            i = i + 1;
            assert(views(out@) =~= tokens(s@, d@).subrange(0, i as int));
        }
        assert(tokens(s@, d@).subrange(0, n as int) =~= tokens(s@, d@));
        return out;
    }
    let sc = chars_of(s);
    let dc = chars_of(d);
    let dl = dc.len();
    let mut start: usize = 0;
    let mut i: usize = 0;
    while dl <= n - i
        invariant
            i <= n,
            n == s@.len(),
            sc@ == s@,
            dc@ == d@,
            dl == d@.len(),
            dl > 0,
            start <= i,
            tokens(s@, d@) == views(out@) + pieces(s@, d@, start as int, i as int),
        decreases n - i,
    {
        if occurs_at(&sc, &dc, i) {
            let piece = String::from_str(s.substring_char(start, i));
            let ghost before = views(out@);
            out.push(piece);
            assert(views(out@) =~= before.push(piece@));
            assert(before + pieces(s@, d@, start as int, i as int) =~= views(out@) + pieces(
                s@,
                d@,
                (i + dl) as int,
                (i + dl) as int,
            ));
            i = i + dl;
            start = i;
        } else {
            i = i + 1;
        }
    }
    let piece = String::from_str(s.substring_char(start, n));
    let ghost before = views(out@);
    out.push(piece);
    assert(views(out@) =~= before.push(piece@));
    assert(views(out@) =~= before + pieces(s@, d@, start as int, i as int));
    out
}

/// The tokens of `t`, with `d` between each two neighbours.
pub fn join_tokens(t: &Vec<String>, lo: usize, hi: usize, d: &str) -> (r: String)
    requires
        lo <= hi <= t@.len(),
    ensures
        r@ == join(views(t@).subrange(lo as int, hi as int), d@),
{
    let mut r = String::new();
    if lo == hi {
        assert(views(t@).subrange(lo as int, hi as int) =~= Seq::<Seq<char>>::empty());
        return r;
    }
    r.append(t[lo].as_str());
    assert(views(t@).subrange(lo as int, lo + 1) =~= seq![t@[lo as int]@]);
    let mut i: usize = lo + 1;
    while i < hi
        invariant
            lo < i <= hi <= t@.len(),
            r@ == join(views(t@).subrange(lo as int, i as int), d@),
        decreases hi - i,
    {
        let ghost prev = views(t@).subrange(lo as int, i as int);
        r.append(d);
        r.append(t[i].as_str());
        proof {
            let one = seq![t@[i as int]@];
            lemma_join_concat(prev, one, d@);
            assert(prev + one =~= views(t@).subrange(lo as int, i + 1));
        }
        i = i + 1;
    }
    r
}

} // verus!
