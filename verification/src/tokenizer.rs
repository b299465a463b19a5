//! Segmentation of text into runs of characters of one kind.
//!
//! A run is a maximal stretch of neighbouring characters that a classifier
//! treats alike. Splitting a word into alphabetic and non-alphabetic runs,
//! and a text into whitespace-delimited words, are both instances of it.

use crate::text::{chars_of, str_views};
use crate::unicode::{alphabetic, whitespace};
use vstd::prelude::*;
use vstd::string::StrSliceExecFns;

verus! {

/// The maximal runs of `text` under `class`, in order: a new run starts
/// wherever a character is classified differently from the one before it.
pub open spec fn runs(text: Seq<char>, class: spec_fn(char) -> bool) -> Seq<Seq<char>>
    decreases text.len(),
{
    if text.len() == 0 {
        Seq::empty()
    } else if text.len() == 1 {
        seq![text]
    } else {
        let before = runs(text.drop_last(), class);
        if class(text[text.len() - 2]) == class(text.last()) {
            before.drop_last().push(before.last().push(text.last()))
        } else {
            before.push(seq![text.last()])
        }
    }
}

/// Whether `parts` cuts `text` into its maximal runs under `class`: the
/// parts put together give `text` back, none is empty, the characters of
/// one part are all classified alike, and neighbouring parts differ.
pub open spec fn is_run_decomposition(
    text: Seq<char>,
    class: spec_fn(char) -> bool,
    parts: Seq<Seq<char>>,
) -> bool {
    &&& parts.flatten() == text
    &&& forall|i: int| 0 <= i < parts.len() ==> (#[trigger] parts[i]).len() > 0
    &&& forall|i: int, k: int|
        0 <= i < parts.len() && 0 <= k < parts[i].len() ==> class(#[trigger] parts[i][k]) == class(
            parts[i][0],
        )
    &&& forall|i: int|
        0 <= i < parts.len() - 1 ==> class((#[trigger] parts[i])[0]) != class(parts[i + 1][0])
}

/// The classifier that tells alphabetic characters from all others.
pub open spec fn alphabetic_class() -> spec_fn(char) -> bool {
    |c: char| alphabetic(c)
}

/// The classifier that tells whitespace from all other characters.
pub open spec fn whitespace_class() -> spec_fn(char) -> bool {
    |c: char| whitespace(c)
}

/// The alphabetic and non-alphabetic runs of `text`.
pub open spec fn alphabetic_runs(text: Seq<char>) -> Seq<Seq<char>> {
    runs(text, alphabetic_class())
}

/// The test that a run passes when it does not start with whitespace.
pub open spec fn word_run() -> spec_fn(Seq<char>) -> bool {
    |run: Seq<char>| !whitespace(run[0])
}

/// The runs among `parts` that do not start with whitespace.
pub open spec fn without_whitespace_runs(parts: Seq<Seq<char>>) -> Seq<Seq<char>> {
    parts.filter(word_run())
}

/// The words of `text`: its maximal stretches of non-whitespace characters,
/// in order. Whitespace only separates them and is not kept.
pub open spec fn whitespace_tokens(text: Seq<char>) -> Seq<Seq<char>> {
    without_whitespace_runs(runs(text, whitespace_class()))
}

/// The runs of a text are a run decomposition of it, and the last run ends
/// with the text's last character.
pub proof fn lemma_runs_decompose(text: Seq<char>, class: spec_fn(char) -> bool)
    ensures
        is_run_decomposition(text, class, runs(text, class)),
        text.len() == 0 <==> runs(text, class).len() == 0,
        text.len() > 0 ==> runs(text, class).last().last() == text.last(),
    decreases text.len(),
{
    broadcast use Seq::lemma_flatten_push;

    let parts = runs(text, class);
    if text.len() == 0 {
        assert(parts.flatten() =~= text);
    } else if text.len() == 1 {
        assert(parts =~= Seq::<Seq<char>>::empty().push(text));
        assert(Seq::<Seq<char>>::empty().flatten() =~= Seq::<char>::empty());
        assert(parts.flatten() =~= text);
    } else {
        let shorter = text.drop_last();
        let before = runs(shorter, class);
        lemma_runs_decompose(shorter, class);
        let head = before.drop_last();
        let tail = before.last();
        assert(before =~= head.push(tail));
        assert(before.flatten() =~= head.flatten() + tail);
        assert(tail.last() == text[text.len() - 2]);
        assert(class(tail.last()) == class(tail[0]));
        if class(text[text.len() - 2]) == class(text.last()) {
            let grown = tail.push(text.last());
            assert(parts == head.push(grown));
            assert(head.push(grown).flatten() =~= head.flatten() + grown);
            assert(head.flatten() + grown =~= (head.flatten() + tail).push(text.last()));
            assert(shorter.push(text.last()) =~= text);
            assert(parts.flatten() =~= text);
            assert forall|i: int, k: int| 0 <= i < parts.len() && 0 <= k < parts[i].len() implies class(
                #[trigger] parts[i][k],
            ) == class(parts[i][0]) by {
                if i < parts.len() - 1 {
                    assert(parts[i] == before[i]);
                } else if k < tail.len() {
                    assert(grown[k] == before[i][k]);
                }
            }
            assert forall|i: int| 0 <= i < parts.len() - 1 implies class(
                (#[trigger] parts[i])[0],
            ) != class(parts[i + 1][0]) by {
                assert(parts[i] == before[i]);
                assert(parts[i + 1][0] == before[i + 1][0]);
            }
        } else {
            assert(parts == before.push(seq![text.last()]));
            assert(before.push(seq![text.last()]).flatten() =~= before.flatten() + seq![text.last()]);
            assert(shorter + seq![text.last()] =~= text);
            assert(parts.flatten() =~= text);
            assert forall|i: int, k: int| 0 <= i < parts.len() && 0 <= k < parts[i].len() implies class(
                #[trigger] parts[i][k],
            ) == class(parts[i][0]) by {
                if i < parts.len() - 1 {
                    assert(parts[i] == before[i]);
                }
            }
            assert forall|i: int| 0 <= i < parts.len() - 1 implies class(
                (#[trigger] parts[i])[0],
            ) != class(parts[i + 1][0]) by {
                assert(parts[i] == before[i]);
                if i < parts.len() - 2 {
                    assert(parts[i + 1] == before[i + 1]);
                }
            }
        }
    }
}

/// Parts that are all non-empty put together give at least one character
/// per part.
proof fn lemma_flatten_of_nonempty_parts(parts: Seq<Seq<char>>)
    requires
        forall|i: int| 0 <= i < parts.len() ==> (#[trigger] parts[i]).len() > 0,
    ensures
        parts.flatten().len() >= parts.len(),
    decreases parts.len(),
{
    if parts.len() > 0 {
        lemma_flatten_of_nonempty_parts(parts.drop_last());
        assert(parts =~= parts.drop_last().push(parts.last()));
        parts.drop_last().lemma_flatten_push(parts.last());
    }
}

/// A text has only one run decomposition: whatever cuts it into non-empty,
/// uniform parts whose neighbours differ is the sequence of its runs.
pub proof fn lemma_run_decomposition_unique(
    text: Seq<char>,
    class: spec_fn(char) -> bool,
    parts: Seq<Seq<char>>,
)
    requires
        is_run_decomposition(text, class, parts),
    ensures
        parts == runs(text, class),
    decreases text.len(),
{
    lemma_flatten_of_nonempty_parts(parts);
    if parts.len() == 0 {
        assert(parts.flatten() =~= Seq::<char>::empty());
        assert(parts =~= runs(text, class));
    } else {
        let head = parts.drop_last();
        let last = parts.last();
        assert(parts =~= head.push(last));
        head.lemma_flatten_push(last);
        assert(text =~= head.flatten() + last);
        assert(text.last() == last.last());
        assert forall|i: int| 0 <= i < head.len() implies (#[trigger] head[i]).len() > 0 by {
            assert(head[i] == parts[i]);
        }
        lemma_flatten_of_nonempty_parts(head);
        if text.len() == 1 {
            assert(head.len() == 0);
            assert(head.flatten() =~= Seq::<char>::empty());
            assert(last =~= text);
            assert(parts =~= seq![text]);
        } else {
            let shorter = text.drop_last();
            if last.len() == 1 {
                assert(head.flatten() =~= shorter);
                assert forall|i: int, k: int|
                    0 <= i < head.len() && 0 <= k < head[i].len() implies class(
                    #[trigger] head[i][k],
                ) == class(head[i][0]) by {
                    assert(head[i] == parts[i]);
                    assert(class(parts[i][k]) == class(parts[i][0]));
                }
                assert forall|i: int| 0 <= i < head.len() - 1 implies class(
                    (#[trigger] head[i])[0],
                ) != class(head[i + 1][0]) by {
                    assert(head[i] == parts[i]);
                    assert(head[i + 1] == parts[i + 1]);
                    assert(class(parts[i][0]) != class(parts[i + 1][0]));
                }
                lemma_run_decomposition_unique(shorter, class, head);
                lemma_runs_decompose(shorter, class);
                let previous = parts[parts.len() - 2];
                assert(previous == head.last());
                assert(class(previous[previous.len() - 1]) == class(previous[0]));
                assert(class(previous[0]) != class(parts[parts.len() - 2 + 1][0]));
                assert(last =~= seq![text.last()]);
            } else {
                let trimmed = last.drop_last();
                let before = head.push(trimmed);
                head.lemma_flatten_push(trimmed);
                assert(before.flatten() =~= shorter);
                assert forall|i: int| 0 <= i < before.len() implies (#[trigger] before[i]).len()
                    > 0 by {
                    if i < head.len() {
                        assert(before[i] == parts[i]);
                    }
                }
                assert forall|i: int, k: int|
                    0 <= i < before.len() && 0 <= k < before[i].len() implies class(
                    #[trigger] before[i][k],
                ) == class(before[i][0]) by {
                    if i < head.len() {
                        assert(before[i] == parts[i]);
                        assert(class(parts[i][k]) == class(parts[i][0]));
                    } else {
                        assert(before[i][k] == parts[i][k]);
                        assert(class(parts[i][k]) == class(parts[i][0]));
                    }
                }
                assert forall|i: int| 0 <= i < before.len() - 1 implies class(
                    (#[trigger] before[i])[0],
                ) != class(before[i + 1][0]) by {
                    assert(before[i] == parts[i]);
                    assert(before[i + 1][0] == parts[i + 1][0]);
                    assert(class(parts[i][0]) != class(parts[i + 1][0]));
                }
                lemma_run_decomposition_unique(shorter, class, before);
                let i = parts.len() - 1;
                assert(class(parts[i][last.len() - 1]) == class(parts[i][0]));
                assert(class(parts[i][last.len() - 2]) == class(parts[i][0]));
                assert(text[text.len() - 2] == last[last.len() - 2]);
                assert(before.drop_last() =~= head);
                assert(before.last().push(text.last()) =~= last);
            }
        }
    }
}

/// How the runs of a prefix grow when the prefix takes in one more
/// character: the character joins the last run or opens a new one.
pub proof fn lemma_runs_step(text: Seq<char>, class: spec_fn(char) -> bool, i: int)
    requires
        1 <= i < text.len(),
    ensures
        class(text[i - 1]) == class(text[i]) ==> runs(text.take(i + 1), class) == runs(
            text.take(i),
            class,
        ).drop_last().push(runs(text.take(i), class).last().push(text[i])),
        class(text[i - 1]) != class(text[i]) ==> runs(text.take(i + 1), class) == runs(
            text.take(i),
            class,
        ).push(seq![text[i]]),
{
    assert(text.take(i + 1).drop_last() =~= text.take(i));
}

/// Every word of a text holds at least one character and no whitespace.
pub proof fn lemma_whitespace_tokens_are_words(text: Seq<char>)
    ensures
        forall|i: int|
            0 <= i < whitespace_tokens(text).len() ==> (#[trigger] whitespace_tokens(text)[i]).len()
                > 0,
        forall|i: int, k: int|
            0 <= i < whitespace_tokens(text).len() && 0 <= k < whitespace_tokens(text)[i].len()
                ==> !whitespace(#[trigger] whitespace_tokens(text)[i][k]),
{
    let parts = runs(text, whitespace_class());
    let words = whitespace_tokens(text);
    lemma_runs_decompose(text, whitespace_class());
    assert forall|i: int| 0 <= i < words.len() implies (#[trigger] words[i]).len() > 0 && (forall|
        k: int,
    |
        0 <= k < words[i].len() ==> !whitespace(#[trigger] words[i][k])) by {
        parts.lemma_filter_pred(word_run(), i);
        assert(words.contains(words[i]));
        parts.lemma_filter_contains_rev(word_run(), words[i]);
        let j = choose|j: int| 0 <= j < parts.len() && parts[j] == words[i];
        assert forall|k: int| 0 <= k < words[i].len() implies !whitespace(
            #[trigger] words[i][k],
        ) by {
            assert(whitespace_class()(parts[j][k]) == whitespace_class()(parts[j][0]));
        }
    }
}

/// Splits `text` at whitespace into its words, in order. Whitespace at
/// either end, or repeated between words, yields no empty word.
pub fn split_whitespace<'a>(text: &'a str) -> (words: Vec<&'a str>)
    ensures
        str_views(words@) == whitespace_tokens(text@),
        forall|i: int| 0 <= i < words@.len() ==> (#[trigger] words@[i])@.len() > 0,
{
    let chars = chars_of(text);
    let n = chars.len();
    let mut words: Vec<&'a str> = Vec::new();
    if n == 0 {
        assert(str_views(words@) =~= whitespace_tokens(text@));
        return words;
    }
    let ghost mut done: Seq<Seq<char>> = Seq::empty();
    let mut start: usize = 0;
    let mut i: usize = 1;
    assert(runs(text@.take(1), whitespace_class()) =~= done.push(text@.subrange(0, 1)));
    assert(str_views(words@) =~= without_whitespace_runs(done));
    while i < n
        invariant
            chars@ == text@,
            n == chars@.len(),
            start < i <= n,
            runs(text@.take(i as int), whitespace_class()) == done.push(
                text@.subrange(start as int, i as int),
            ),
            str_views(words@) == without_whitespace_runs(done),
        decreases n - i,
    {
        proof {
            lemma_runs_step(text@, whitespace_class(), i as int);
        }
        let ghost run = text@.subrange(start as int, i as int);
        if chars[i].is_whitespace() != chars[i - 1].is_whitespace() {
            if !chars[start].is_whitespace() {
                let word = text.substring_char(start, i);
                proof {
                    lemma_keep_run(done, run);
                    assert(str_views(words@.push(word)) =~= str_views(words@).push(run));
                }
                words.push(word);
            } else {
                proof {
                    lemma_keep_run(done, run);
                }
            }
            proof {
                done = done.push(run);
                assert(seq![text@[i as int]] =~= text@.subrange(i as int, i + 1));
            }
            start = i;
        } else {
            assert(done.push(run).drop_last() =~= done);
            assert(run.push(text@[i as int]) =~= text@.subrange(start as int, i + 1));
        }
        i += 1;
    }
    let ghost run = text@.subrange(start as int, n as int);
    assert(text@.take(n as int) =~= text@);
    proof {
        lemma_keep_run(done, run);
    }
    if !chars[start].is_whitespace() {
        let word = text.substring_char(start, n);
        assert(str_views(words@.push(word)) =~= str_views(words@).push(run));
        words.push(word);
    }
    proof {
        lemma_whitespace_tokens_are_words(text@);
        assert forall|i: int| 0 <= i < words@.len() implies (#[trigger] words@[i])@.len() > 0 by {
            assert(str_views(words@).len() == words@.len());
            assert(whitespace_tokens(text@)[i] == words@[i]@);
        }
    }
    words
}

/// Filtering out whitespace runs keeps a run pushed last exactly when it
/// does not start with whitespace.
proof fn lemma_keep_run(parts: Seq<Seq<char>>, run: Seq<char>)
    ensures
        without_whitespace_runs(parts.push(run)) == if whitespace(run[0]) {
            without_whitespace_runs(parts)
        } else {
            without_whitespace_runs(parts).push(run)
        },
{
    assert(parts.push(run).drop_last() =~= parts);
    reveal(Seq::filter);
}

} // verus!
