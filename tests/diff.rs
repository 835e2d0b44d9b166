use difference::lcs::lcs;
use difference::merge::merge;
use difference::text::tokenize;
use difference::{diff, Changeset, ChangesetOptions, Difference};

fn same(s: &str) -> Difference {
    Difference::Same(s.to_string())
}

fn add(s: &str) -> Difference {
    Difference::Add(s.to_string())
}

fn rem(s: &str) -> Difference {
    Difference::Rem(s.to_string())
}

/// The text spelled by the runs that `keep` selects, with `split` between runs.
fn spell(diffs: &[Difference], split: &str, keep_add: bool) -> String {
    let mut parts: Vec<&str> = Vec::new();
    for d in diffs {
        match d {
            Difference::Same(t) => parts.push(t),
            Difference::Add(t) => {
                if keep_add {
                    parts.push(t)
                }
            }
            Difference::Rem(t) => {
                if !keep_add {
                    parts.push(t)
                }
            }
        }
    }
    parts.join(split)
}

#[test]
fn test_lcs() {
    assert_eq!(lcs("test", "tost", ""), (2, "tst".to_string()));
    assert_eq!(lcs("test", "test", ""), (0, "test".to_string()));

    assert_eq!(lcs("test", "test", " "), (0, "test".to_string()));

    assert_eq!(
        lcs(
            "The quick brown fox jumps over the lazy dog",
            "The quick brown dog leaps over the lazy cat",
            ""
        ),
        (16, "The quick brown o ps over the lazy ".to_string())
    );
    assert_eq!(
        lcs(
            "The quick brown fox jumps over the lazy dog",
            "The quick brown dog leaps over the lazy cat",
            " "
        ),
        (6, "The quick brown over the lazy".to_string())
    );

    assert_eq!(
        lcs(
            "The quick brown fox jumps over the lazy dog",
            "The quick brown dog leaps over the lazy cat",
            "\n"
        ),
        (2, "".to_string())
    );
    assert_eq!(
        lcs(
            "The quick brown fox jumps over the lazy dog",
            "The quick brown fox jumps over the lazy dog",
            "\n"
        ),
        (0, "The quick brown fox jumps over the lazy dog".to_string())
    );
}

#[test]
fn test_merge() {
    assert_eq!(
        merge("testa", "tost", "tst", ""),
        vec![same("t"), rem("e"), add("o"), same("st"), rem("a")]
    );

    assert_eq!(merge("", "a", "", ""), vec![add("a")]);

    assert_eq!(
        merge("a\nb", "a\n\nb", "a\nb", "\n"),
        vec![same("a"), add(""), same("b")]
    );

    assert_eq!(
        merge("a\n", "c\n", "\n", "\n"),
        vec![rem("a"), add("c"), same("")]
    );
}

#[test]
fn test_diff() {
    let text1 = "Roses are red, violets are blue,\n\
                 I wrote this library,\n\
                 just for you.\n\
                 (It's true).";

    let text2 = "Roses are red, violets are blue,\n\
                 I wrote this documentation,\n\
                 just for you.\n\
                 (It's quite true).";

    let changeset = Changeset::new(text1, text2, "\n");

    assert_eq!(changeset.distance, 4);

    assert_eq!(
        changeset.diffs,
        vec![
            same("Roses are red, violets are blue,"),
            rem("I wrote this library,"),
            add("I wrote this documentation,"),
            same("just for you."),
            rem("(It's true)."),
            add("(It's quite true).")
        ]
    );
}

#[test]
#[should_panic]
fn test_assert_diff_panic() {
    let text1 = "Roses are red, violets are blue,\n\
                 I wrote this library,\n\
                 just for you.\n\
                 (It's true).";

    let text2 = "Roses are red, violets are blue,\n\
                 I wrote this documentation,\n\
                 just for you.\n\
                 (It's quite true).";

    let changeset = Changeset::new(text1, text2, "\n'");
    if changeset.distance != 0 {
        panic!(
            "assertion failed: edit distance between {:?} and {:?} is {} and not {}",
            text1, text2, changeset.distance, 0
        );
    }
}

#[test]
fn test_assert_diff() {
    let text1 = "Roses are red, violets are blue";

    let text2 = "Roses are green, violets are blue";

    let changeset = Changeset::new(text1, text2, " ");
    assert_eq!(changeset.distance, 2);
}

#[test]
fn reflexive_distance_and_common() {
    assert_eq!(lcs("a b c", "a b c", " "), (0, "a b c".to_string()));
    assert_eq!(lcs(" lead and trail ", " lead and trail ", " "), (0, " lead and trail ".to_string()));
    assert_eq!(lcs("", "", ""), (0, "".to_string()));
    assert_eq!(lcs("", "", ","), (0, "".to_string()));
    assert_eq!(lcs("x::y::", "x::y::", "::"), (0, "x::y::".to_string()));
}

#[test]
fn distance_is_symmetric() {
    let pairs = [("kitten", "sitting", ""), ("a b c d", "b d e", " "), ("", "abc", ""), ("1\n2\n3", "3\n2\n1", "\n")];
    for (a, b, d) in pairs.iter() {
        assert_eq!(lcs(a, b, d).0, lcs(b, a, d).0);
    }
    assert_eq!(lcs("kitten", "sitting", "").0, 5);
}

#[test]
fn changeset_spells_both_texts() {
    let cases = [
        ("testa", "tost", ""),
        ("the cat sat", "a cat sat down", " "),
        ("a\n\nb\n", "\nb\nc", "\n"),
        ("", "new", " "),
        ("old", "", ""),
        ("x--y--z", "x--z--y", "--"),
    ];
    for (a, b, d) in cases.iter() {
        let ch = Changeset::new(a, b, d);
        assert_eq!(spell(&ch.diffs, d, false), a.to_string());
        assert_eq!(spell(&ch.diffs, d, true), b.to_string());
        assert_eq!(ch.split, d.to_string());
    }
}

#[test]
fn distance_bound_and_disjoint_inputs() {
    assert_eq!(lcs("abc", "xyz", ""), (6, "".to_string()));
    assert_eq!(lcs("one two", "three four", " "), (4, "".to_string()));
    let (d, common) = lcs("one two", "two three", " ");
    assert_eq!(d, 2);
    assert_eq!(common, "two".to_string());
}

#[test]
fn empty_input_boundary() {
    assert_eq!(lcs("", "x", ""), (1, "".to_string()));
    let ch = Changeset::new("", "a", "");
    assert_eq!(ch.diffs, vec![add("a")]);
    assert_eq!(ch.distance, 1);
    assert_eq!(lcs("", "x", " "), (2, "".to_string()));
}

#[test]
fn identical_inputs() {
    let ch = Changeset::new("test", "test", "");
    assert_eq!(ch.diffs, vec![same("test")]);
    assert_eq!(ch.distance, 0);
    assert!(!ch.word_diff);
}

#[test]
fn known_fixture() {
    assert_eq!(lcs("test", "tost", ""), (2, "tst".to_string()));
    let ch = Changeset::new("testa", "tost", "");
    assert_eq!(ch.diffs, vec![same("t"), rem("e"), add("o"), same("st"), rem("a")]);
    assert_eq!(ch.distance, 3);
    let ch = Changeset::new("test", "tent", "");
    assert_eq!(ch.diffs, vec![same("te"), rem("s"), add("n"), same("t")]);
}

#[test]
fn line_level_fixture() {
    let a = "one\ntwo\nthree\nfour";
    let b = "one\n2\nthree\n4";
    let ch = Changeset::new(a, b, "\n");
    assert_eq!(ch.distance, 4);
    assert_eq!(
        ch.diffs,
        vec![same("one"), rem("two"), add("2"), same("three"), rem("four"), add("4")]
    );
}

#[test]
fn merge_without_anchor_removes_then_adds() {
    assert_eq!(merge("ab", "cd", "", ""), vec![rem("ab"), add("cd")]);
    assert_eq!(merge("a b", "c", "", " "), vec![rem("a b"), add("c")]);
    assert_eq!(merge("", "", "", ""), vec![]);
}

#[test]
fn merge_with_foreign_anchor_still_spells_both() {
    let out = merge("ab", "bbaab", "bb", "");
    assert_eq!(spell(&out, "", false), "ab".to_string());
    assert_eq!(spell(&out, "", true), "bbaab".to_string());
}

#[test]
fn tokenize_splits_like_str_split() {
    assert_eq!(tokenize("a,,b", ","), vec!["a", "", "b"]);
    assert_eq!(tokenize("", ","), vec![""]);
    assert_eq!(tokenize(",a,", ","), vec!["", "a", ""]);
    assert_eq!(tokenize("abc", ""), vec!["a", "b", "c"]);
    assert_eq!(tokenize("", ""), Vec::<String>::new());
    assert_eq!(tokenize("aaa", "aa"), vec!["", "a"]);
    assert_eq!(tokenize("x<>y<>", "<>"), vec!["x", "y", ""]);
}

#[test]
fn options_and_legacy_entry() {
    let opts = ChangesetOptions::new(true);
    assert!(opts.word_diff);
    let ch = Changeset::new_with_options("test", "tent", "", opts);
    assert!(ch.word_diff);
    assert_eq!(ch.diffs, vec![same("te"), rem("s"), add("n"), same("t")]);
    let (d, diffs) = diff("test", "tent", "");
    assert_eq!(d, 2);
    assert_eq!(diffs, ch.diffs);
}
