//! Differences between two texts, split into tokens by a chosen delimiter:
//! the edit distance (token insertions plus deletions) and an ordered
//! changeset of `Same`, `Add` and `Rem` runs.
use vstd::prelude::*;

pub mod text;
pub mod lcs;
pub mod merge;

use crate::lcs::{edit_distance, is_lcs, lcs_choice, lcs_tokens};
use crate::merge::{
    edited_of, merge_tokens, new_runs, old_runs, original_of, rem_before_add, run_views, runs_grouped, same_runs,
    spells, walk,
};
use crate::text::{lemma_tokens_join, lemma_tokens_len, tokenize, tokens, views};

verus! {

/// One run of a changeset: tokens both texts share, tokens only the edited
/// text has, or tokens only the original text has, joined with the delimiter.
#[derive(PartialEq, Eq, Debug)]
pub enum Difference {
    /// Tokens present in both texts.
    Same(String),
    /// Tokens only the edited text has.
    Add(String),
    /// Tokens only the original text has.
    Rem(String),
}

/// How a changeset is to be shown.
pub struct ChangesetOptions {
    /// Show the changeset with word markers (`[-g-][+f+]oo`) instead of colours.
    pub word_diff: bool,
}

impl ChangesetOptions {
    /// Options with the given display choice.
    pub fn new(word_diff: bool) -> (r: ChangesetOptions)
        ensures
            r.word_diff == word_diff,
    {
        ChangesetOptions { word_diff: word_diff }
    }
}

/// The full changeset of two texts.
pub struct Changeset {
    /// The runs, in order of appearance.
    pub diffs: Vec<Difference>,
    /// The delimiter the texts were split by: `""` for characters, `" "`
    /// for words, `"\n"` for lines.
    pub split: String,
    /// The edit distance of the two texts.
    pub distance: i32,
    /// Show the changeset with word markers instead of colours.
    pub word_diff: bool,
}

/// The largest combined length of two texts that a changeset is computed for.
pub const MAX_TOTAL_LEN: usize = 0x3fff_0000;

/// What the runs of a changeset of `orig` and `edit` split by `split` hold:
/// they are the walk over the tokens of both texts anchored on the longest
/// common subsequence that Myers' search picks; so the `Same` and `Rem` runs spell the tokens
/// of `orig`, the `Same` and `Add` runs spell the tokens of `edit`, the `Same`
/// runs spell that subsequence, no two neighbouring runs are of one kind, and
/// no `Add` run comes right before a `Rem` run.
pub open spec fn runs_describe(diffs: Seq<Difference>, orig: Seq<char>, edit: Seq<char>, split: Seq<char>) -> bool {
    &&& original_of(diffs, split) == orig
    &&& edited_of(diffs, split) == edit
    &&& spells(old_runs(diffs), tokens(orig, split), tokens(orig, split).len() as int, split)
    &&& spells(new_runs(diffs), tokens(edit, split), tokens(edit, split).len() as int, split)
    &&& is_lcs(lcs_choice(tokens(orig, split), tokens(edit, split)), tokens(orig, split), tokens(edit, split))
    &&& spells(
        same_runs(diffs),
        lcs_choice(tokens(orig, split), tokens(edit, split)),
        lcs_choice(tokens(orig, split), tokens(edit, split)).len() as int,
        split,
    )
    &&& run_views(diffs) == walk(
        tokens(orig, split),
        tokens(edit, split),
        lcs_choice(tokens(orig, split), tokens(edit, split)),
        split,
        0,
        0,
        0,
    )
    &&& runs_grouped(diffs)
    &&& rem_before_add(diffs)
}

/// What a changeset of `orig` and `edit` split by `split` holds.
pub open spec fn describes(ch: &Changeset, orig: Seq<char>, edit: Seq<char>, split: Seq<char>) -> bool {
    &&& ch.distance == edit_distance(tokens(orig, split), tokens(edit, split))
    &&& runs_describe(ch.diffs@, orig, edit, split)
    &&& ch.split@ == split
}

/// Two run lists of the same texts and delimiter are alike: the same kind
/// and text in each place. So `Changeset::new`, `Changeset::new_with_options`
/// and `diff` give the same runs, and (by their contracts) the same distance.
pub proof fn lemma_runs_determined(
    d1: Seq<Difference>,
    d2: Seq<Difference>,
    orig: Seq<char>,
    edit: Seq<char>,
    split: Seq<char>,
)
    requires
        runs_describe(d1, orig, edit, split),
        runs_describe(d2, orig, edit, split),
    ensures
        run_views(d1) == run_views(d2),
{
}

impl Changeset {
    /// The edit distance and the changeset of `orig` (the original text) and
    /// `edit` (an edited version of it), both split by `split`.
    pub fn new(orig: &str, edit: &str, split: &str) -> (r: Changeset)
        requires
            orig@.len() + edit@.len() <= MAX_TOTAL_LEN,
        ensures
            describes(&r, orig@, edit@, split@),
            !r.word_diff,
    {
        Self::new_with_options(orig, edit, split, ChangesetOptions::new(false))
    }

    /// As `new`, with display options.
    pub fn new_with_options(orig: &str, edit: &str, split: &str, options: ChangesetOptions) -> (r: Changeset)
        requires
            orig@.len() + edit@.len() <= MAX_TOTAL_LEN,
        ensures
            describes(&r, orig@, edit@, split@),
            r.word_diff == options.word_diff,
    {
        let a = tokenize(orig, split);
        let b = tokenize(edit, split);
        proof {
            lemma_tokens_len(orig@, split@);
            lemma_tokens_len(edit@, split@);
        }
        let (dist, common) = lcs_tokens(&a, &b);
        let diffs = merge_tokens(&a, &b, &common, split);
        proof {
            let (av, bv, cv) = (views(a@), views(b@), views(common@));
            lemma_tokens_join(orig@, split@);
            lemma_tokens_join(edit@, split@);
            assert(av.subrange(0, av.len() as int) =~= av);
            assert(bv.subrange(0, bv.len() as int) =~= bv);
            assert(cv.subrange(0, cv.len() as int) =~= cv);
        }
        Changeset { diffs: diffs, split: String::from_str(split), distance: dist, word_diff: options.word_diff }
    }
}

/// The edit distance and the runs of the changeset of `orig` and `edit`.
pub fn diff(orig: &str, edit: &str, split: &str) -> (r: (i32, Vec<Difference>))
    requires
        orig@.len() + edit@.len() <= MAX_TOTAL_LEN,
    ensures
        r.0 == edit_distance(tokens(orig@, split@), tokens(edit@, split@)),
        runs_describe(r.1@, orig@, edit@, split@),
{
    let ch = Changeset::new(orig, edit, split);
    (ch.distance, ch.diffs)
}

} // verus!
