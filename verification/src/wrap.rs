//! Greedy word wrapping, and what it keeps of the text.

use vstd::prelude::*;
use crate::text::{
    all_words_solid, append_chars, chars_of, lemma_solid_chars_add, lemma_solid_chars_push_space,
    lemma_word_len_of_solid, lemma_word_len_push_space, lemma_words_flatten, lemma_words_join,
    lemma_words_of_solid,
    lemma_words_nonempty, lemma_words_solid, word_len, is_space, push_char, solid_chars, split_words, string_of,
    strings_view, views_of, words,
};
use vstd::seq_lib::lemma_flatten_concat;

verus! {

/// The full-width pieces that a word longer than `max` is cut into, front to back.
pub open spec fn hard_cuts(w: Seq<char>, max: nat) -> Seq<Seq<char>>
    decreases w.len(),
{
    if max > 0 && w.len() > max {
        seq![w.take(max as int)] + hard_cuts(w.skip(max as int), max)
    } else {
        seq![]
    }
}

/// What is left of a word once its full-width pieces are cut off.
pub open spec fn hard_rest(w: Seq<char>, max: nat) -> Seq<char>
    decreases w.len(),
{
    if max > 0 && w.len() > max {
        hard_rest(w.skip(max as int), max)
    } else {
        w
    }
}

/// The width a word needs on `line`: its own length, plus a space and the line when the
/// line is not empty.
pub open spec fn needed_width(line: Seq<char>, word: Seq<char>) -> int {
    if line.len() == 0 {
        word.len() as int
    } else {
        (line.len() + 1 + word.len()) as int
    }
}

/// One step of greedy wrapping: places `word` given the finished `lines` and the current
/// `line`.  A line that cannot take the word is finished first; a word longer than a line
/// is cut into full-width pieces and its rest starts the current line.
pub open spec fn wrap_step(
    lines: Seq<Seq<char>>,
    line: Seq<char>,
    word: Seq<char>,
    max: nat,
) -> (Seq<Seq<char>>, Seq<char>) {
    let flush = needed_width(line, word) > max && line.len() > 0;
    let lines1 = if flush { lines.push(line) } else { lines };
    let line1 = if flush { Seq::<char>::empty() } else { line };
    let line2 = if line1.len() > 0 { line1.push(' ') } else { line1 };
    if word.len() > max {
        (lines1 + hard_cuts(word, max), line2 + hard_rest(word, max))
    } else {
        (lines1, line2 + word)
    }
}

/// Greedy wrapping of the words `ws`, in order: the finished lines and the current line.
pub open spec fn wrap_fold(ws: Seq<Seq<char>>, max: nat) -> (Seq<Seq<char>>, Seq<char>)
    decreases ws.len(),
{
    if ws.len() == 0 {
        (seq![], seq![])
    } else {
        let prev = wrap_fold(ws.drop_last(), max);
        wrap_step(prev.0, prev.1, ws.last(), max)
    }
}

/// The lines that greedy wrapping of `text` at `max` characters gives: the finished lines,
/// then the current line if it is not empty; a single empty line when there is nothing.
pub open spec fn wrapped(text: Seq<char>, max: nat) -> Seq<Seq<char>> {
    let st = wrap_fold(words(text), max);
    let lines = if st.1.len() > 0 { st.0.push(st.1) } else { st.0 };
    if lines.len() == 0 {
        seq![Seq::<char>::empty()]
    } else {
        lines
    }
}

/// Cut pieces are full width, and the rest fits on a line.
pub proof fn lemma_hard_split_widths(w: Seq<char>, max: nat)
    requires
        max > 0,
    ensures
        forall|i: int| 0 <= i < hard_cuts(w, max).len() ==> #[trigger] hard_cuts(w, max)[i].len()
            == max,
        hard_rest(w, max).len() <= max,
        w.len() > 0 ==> hard_rest(w, max).len() > 0,
    decreases w.len(),
{
    if w.len() > max {
        lemma_hard_split_widths(w.skip(max as int), max);
        let c = hard_cuts(w, max);
        let t = hard_cuts(w.skip(max as int), max);
        assert forall|i: int| 0 <= i < c.len() implies #[trigger] c[i].len() == max by {
            if i > 0 {
                assert(c[i] == t[i - 1]);
            }
        }
    }
}

/// Every line of a wrapping in progress fits in `max` characters.
pub proof fn lemma_wrap_fold_widths(ws: Seq<Seq<char>>, max: nat)
    requires
        max > 0,
    ensures
        wrap_fold(ws, max).1.len() <= max,
        forall|i: int|
            0 <= i < wrap_fold(ws, max).0.len() ==> #[trigger] wrap_fold(ws, max).0[i].len() <= max,
    decreases ws.len(),
{
    if ws.len() > 0 {
        lemma_wrap_fold_widths(ws.drop_last(), max);
        let prev = wrap_fold(ws.drop_last(), max);
        let word = ws.last();
        lemma_hard_split_widths(word, max);
        let flush = needed_width(prev.1, word) > max && prev.1.len() > 0;
        let lines1 = if flush { prev.0.push(prev.1) } else { prev.0 };
        assert(forall|i: int| 0 <= i < lines1.len() ==> #[trigger] lines1[i].len() <= max);
        let cur = wrap_fold(ws, max);
        if word.len() > max {
            let cuts = hard_cuts(word, max);
            assert forall|i: int| 0 <= i < cur.0.len() implies #[trigger] cur.0[i].len() <= max by {
                if i >= lines1.len() {
                    assert(cur.0[i] == cuts[i - lines1.len()]);
                } else {
                    assert(cur.0[i] == lines1[i]);
                }
            }
        }
    }
}

/// Greedy word wrap of `text` into lines of at most `max_chars` characters.
///
/// Words are the maximal runs of non-space characters; a line holds words joined by single
/// spaces.  A word that does not fit on the current line starts a new one, and a single word
/// longer than a line gets hard-split.  Text without words gives one empty line.
pub fn wrap(text: &str, max_chars: usize) -> (lines: Vec<String>)
    requires
        max_chars > 0 || words(text@).len() == 0,
    ensures
        strings_view(lines@) == wrapped(text@, max_chars as nat),
{
    let ghost max = max_chars as nat;
    let chars = chars_of(text);
    let ws = split_words(&chars);
    let mut lines: Vec<String> = Vec::new();
    let mut line = String::new();
    let mut line_len: usize = 0;
    let mut k: usize = 0;
    assert(views_of(ws@).take(0) =~= Seq::<Seq<char>>::empty());
    assert(strings_view(lines@) =~= Seq::<Seq<char>>::empty());
    while k < ws.len()
        invariant
            views_of(ws@) == words(text@),
            max == max_chars as nat,
            max_chars > 0 || ws@.len() == 0,
            k <= ws@.len(),
            wrap_fold(views_of(ws@).take(k as int), max) == (strings_view(lines@), line@),
            line_len == line@.len(),
        decreases ws@.len() - k,
    {
        let ghost prefix = views_of(ws@).take(k as int);
        let ghost lines0 = strings_view(lines@);
        let ghost line0 = line@;
        proof {
            lemma_wrap_fold_widths(prefix, max);
            assert(views_of(ws@).take(k + 1).drop_last() =~= prefix);
            assert(views_of(ws@)[k as int] == ws@[k as int]@);
        }
        let word = &ws[k];
        let wl = word.len();
        let need: u128 = if line_len == 0 {
            wl as u128
        } else {
            line_len as u128 + 1 + wl as u128
        };
        if need > max_chars as u128 && line_len > 0 {
            let mut finished = String::new();
            std::mem::swap(&mut finished, &mut line);
            lines.push(finished);
            line_len = 0;
            assert(strings_view(lines@) =~= lines0.push(line0));
        }
        let ghost lines1 = strings_view(lines@);
        if line_len > 0 {
            push_char(&mut line, ' ');
            line_len = line_len + 1;
        }
        if wl > max_chars {
            let mut start: usize = 0;
            let ghost w = word@;
            assert(w.skip(0) =~= w);
            assert(lines1 + Seq::<Seq<char>>::empty() =~= lines1);
            while wl - start > max_chars
                invariant
                    wl == w.len(),
                    w == word@,
                    max == max_chars as nat,
                    max_chars > 0,
                    start <= wl,
                    lines1 + hard_cuts(w, max) == strings_view(lines@) + hard_cuts(w.skip(start as int), max),
                    hard_rest(w, max) == hard_rest(w.skip(start as int), max),
                decreases wl - start,
            {
                let ghost rest = w.skip(start as int);
                let cut = string_of(word, start, start + max_chars);
                proof {
                    assert(cut@ =~= rest.take(max as int));
                    assert(rest.skip(max as int) =~= w.skip(start + max_chars));
                    assert(strings_view(lines@.push(cut)) =~= strings_view(lines@).push(cut@));
                    assert(strings_view(lines@) + hard_cuts(rest, max) =~= strings_view(lines@).push(cut@) + hard_cuts(w.skip(start + max_chars), max));
                }
                lines.push(cut);
                start = start + max_chars;
            }
            proof {
                assert(hard_cuts(w.skip(start as int), max) =~= Seq::<Seq<char>>::empty());
                assert(strings_view(lines@) + Seq::<Seq<char>>::empty() =~= strings_view(lines@));
                lemma_hard_split_widths(w, max);
            }
            append_chars(&mut line, word, start, wl);
            assert(word@.subrange(start as int, wl as int) =~= w.skip(start as int));
            line_len = line_len + (wl - start);
        } else {
            append_chars(&mut line, word, 0, wl);
            assert(word@.subrange(0, wl as int) =~= word@);
            line_len = line_len + wl;
        }
        k = k + 1;
    }
    assert(views_of(ws@).take(ws@.len() as int) =~= views_of(ws@));
    if line_len > 0 {
        lines.push(line);
    }
    if lines.len() == 0 {
        lines.push(String::new());
    }
    proof {
        assert(strings_view(lines@) =~= wrapped(text@, max));
    }
    lines
}

/// The pieces of a hard-split word, run together, give the word back.
pub proof fn lemma_hard_split_flatten(w: Seq<char>, max: nat)
    ensures
        hard_cuts(w, max).flatten() + hard_rest(w, max) == w,
    decreases w.len(),
{
    if max > 0 && w.len() > max {
        let rest = w.skip(max as int);
        lemma_hard_split_flatten(rest, max);
        let c = hard_cuts(w, max);
        assert(c.first() == w.take(max as int));
        assert(c.drop_first() =~= hard_cuts(rest, max));
        assert(w =~= w.take(max as int) + rest);
        assert(c.flatten() == w.take(max as int) + hard_cuts(rest, max).flatten());
        assert(c.flatten() + hard_rest(w, max) =~= w.take(max as int) + (hard_cuts(rest, max).flatten()
            + hard_rest(rest, max)));
    } else {
        assert(hard_cuts(w, max).flatten() =~= Seq::<char>::empty());
        assert(Seq::<char>::empty() + w =~= w);
    }
}

/// The non-space characters of a wrapping in progress: its lines, then its current line.
pub open spec fn placed_chars(st: (Seq<Seq<char>>, Seq<char>)) -> Seq<char> {
    solid_chars(st.0.flatten() + st.1)
}

/// Placing a word adds exactly that word's characters.
pub proof fn lemma_wrap_step_chars(lines: Seq<Seq<char>>, line: Seq<char>, word: Seq<char>, max: nat)
    requires
        forall|k: int| 0 <= k < word.len() ==> !crate::text::is_space(#[trigger] word[k]),
    ensures
        placed_chars(wrap_step(lines, line, word, max)) == placed_chars((lines, line)) + word,
{
    let flush = needed_width(line, word) > max && line.len() > 0;
    let lines1 = if flush { lines.push(line) } else { lines };
    let line1 = if flush { Seq::<char>::empty() } else { line };
    let line2 = if line1.len() > 0 { line1.push(' ') } else { line1 };
    // Finishing the line moves it, keeping its characters.
    assert(placed_chars((lines1, line1)) == placed_chars((lines, line))) by {
        if flush {
            lines.lemma_flatten_push(line);
            assert(lines1.flatten() + line1 =~= lines.flatten() + line);
        }
    }
    // The joining space adds nothing.
    assert(solid_chars(lines1.flatten() + line2) == placed_chars((lines1, line1))) by {
        lemma_solid_chars_add(lines1.flatten(), line2);
        lemma_solid_chars_add(lines1.flatten(), line1);
        if line1.len() > 0 {
            lemma_solid_chars_push_space(line1);
        }
    }
    crate::text::lemma_solid_chars_of_solid(word);
    if word.len() > max {
        // The line was empty or finished: the word starts a new one.
        assert(line2.len() == 0);
        let cuts = hard_cuts(word, max);
        let rest = hard_rest(word, max);
        lemma_hard_split_flatten(word, max);
        lemma_flatten_concat(lines1, cuts);
        assert((lines1 + cuts).flatten() + (line2 + rest) =~= lines1.flatten() + word);
        lemma_solid_chars_add(lines1.flatten(), word);
        assert(lines1.flatten() + line2 =~= lines1.flatten());
    } else {
        assert(lines1.flatten() + (line2 + word) =~= (lines1.flatten() + line2) + word);
        lemma_solid_chars_add(lines1.flatten() + line2, word);
    }
}

/// Wrapping words that hold no spaces places exactly their characters, in order.
pub proof fn lemma_wrap_fold_chars(ws: Seq<Seq<char>>, max: nat)
    requires
        all_words_solid(ws),
    ensures
        placed_chars(wrap_fold(ws, max)) == ws.flatten(),
    decreases ws.len(),
{
    if ws.len() == 0 {
        assert(placed_chars(wrap_fold(ws, max)) =~= Seq::<char>::empty());
        assert(ws.flatten() =~= Seq::<char>::empty());
    } else {
        let init = ws.drop_last();
        assert(all_words_solid(init)) by {
            assert forall|i: int, k: int|
                0 <= i < init.len() && 0 <= k < init[i].len() implies !crate::text::is_space(
                #[trigger] init[i][k],
            ) by {
                assert(init[i] == ws[i]);
            }
        }
        lemma_wrap_fold_chars(init, max);
        let prev = wrap_fold(init, max);
        let w = ws.last();
        assert forall|k: int| 0 <= k < w.len() implies !crate::text::is_space(#[trigger] w[k]) by {
            assert(ws[ws.len() - 1][k] == w[k]);
        }
        lemma_wrap_step_chars(prev.0, prev.1, w, max);
        assert(init.push(w) =~= ws);
        init.lemma_flatten_push(w);
    }
}

/// Wrapping loses no text: the non-space characters of the lines, run together, are
/// exactly those of the text, in the same order.
pub proof fn lemma_wrap_keeps_text(text: Seq<char>, max: nat)
    ensures
        solid_chars(wrapped(text, max).flatten()) == solid_chars(text),
{
    let ws = words(text);
    lemma_words_solid(text);
    lemma_words_flatten(text);
    lemma_wrap_fold_chars(ws, max);
    let st = wrap_fold(ws, max);
    let lines = if st.1.len() > 0 { st.0.push(st.1) } else { st.0 };
    assert(lines.flatten() == st.0.flatten() + st.1) by {
        if st.1.len() > 0 {
            st.0.lemma_flatten_push(st.1);
        } else {
            assert(st.0.flatten() + st.1 =~= st.0.flatten());
        }
    }
    if lines.len() == 0 {
        let one = seq![Seq::<char>::empty()];
        one.lemma_flatten_one_element();
        assert(lines.flatten() =~= Seq::<char>::empty());
    }
}

/// Every line of a wrapping at `max > 0` characters is at most `max` characters long.
pub proof fn lemma_wrap_width(text: Seq<char>, max: nat)
    requires
        max > 0,
    ensures
        forall|i: int|
            0 <= i < wrapped(text, max).len() ==> #[trigger] wrapped(text, max)[i].len() <= max,
{
    lemma_wrap_fold_widths(words(text), max);
}

/// With non-empty words, every finished line is non-empty, and so is the current line once
/// a word has been placed.
proof fn lemma_wrap_fold_nonempty(ws: Seq<Seq<char>>, max: nat)
    requires
        max > 0,
        forall|i: int| 0 <= i < ws.len() ==> #[trigger] ws[i].len() > 0,
    ensures
        forall|i: int|
            0 <= i < wrap_fold(ws, max).0.len() ==> #[trigger] wrap_fold(ws, max).0[i].len() > 0,
        ws.len() > 0 ==> wrap_fold(ws, max).1.len() > 0,
    decreases ws.len(),
{
    if ws.len() > 0 {
        let init = ws.drop_last();
        assert forall|i: int| 0 <= i < init.len() implies #[trigger] init[i].len() > 0 by {
            assert(init[i] == ws[i]);
        }
        lemma_wrap_fold_nonempty(init, max);
        let prev = wrap_fold(init, max);
        let word = ws.last();
        assert(word.len() > 0);
        lemma_hard_split_widths(word, max);
        let flush = needed_width(prev.1, word) > max && prev.1.len() > 0;
        let lines1 = if flush { prev.0.push(prev.1) } else { prev.0 };
        assert(forall|i: int| 0 <= i < lines1.len() ==> #[trigger] lines1[i].len() > 0);
        let cur = wrap_fold(ws, max);
        if word.len() > max {
            let cuts = hard_cuts(word, max);
            assert forall|i: int| 0 <= i < cur.0.len() implies #[trigger] cur.0[i].len() > 0 by {
                if i >= lines1.len() {
                    assert(cur.0[i] == cuts[i - lines1.len()]);
                } else {
                    assert(cur.0[i] == lines1[i]);
                }
            }
        }
    }
}

/// Wrapping never gives an empty list.  A text without words gives a single empty line;
/// otherwise, at `max > 0`, no line is empty.
pub proof fn lemma_wrap_lines_nonempty(text: Seq<char>, max: nat)
    requires
        max > 0,
    ensures
        wrapped(text, max).len() > 0,
        words(text).len() == 0 ==> wrapped(text, max) == seq![Seq::<char>::empty()],
        words(text).len() > 0 ==> forall|i: int|
            0 <= i < wrapped(text, max).len() ==> #[trigger] wrapped(text, max)[i].len() > 0,
{
    lemma_words_nonempty(text);
    lemma_wrap_fold_nonempty(words(text), max);
    if words(text).len() == 0 {
        assert(wrap_fold(words(text), max).0.len() == 0);
    }
}


/// Every break between consecutive lines is forced: the next line's first run of characters
/// would not have fit, after a space, on the line before.
pub open spec fn breaks_forced(lines: Seq<Seq<char>>, max: nat) -> bool {
    forall|i: int|
        0 <= i < lines.len() - 1 ==> #[trigger] lines[i].len() + 1 + word_len(lines[i + 1]) > max
}

/// The pieces of a word without spaces hold no spaces either.
proof fn lemma_hard_split_solid(w: Seq<char>, max: nat)
    requires
        forall|k: int| 0 <= k < w.len() ==> !is_space(#[trigger] w[k]),
    ensures
        forall|i: int, k: int|
            0 <= i < hard_cuts(w, max).len() && 0 <= k < hard_cuts(w, max)[i].len() ==> !is_space(
                #[trigger] hard_cuts(w, max)[i][k],
            ),
        forall|k: int| 0 <= k < hard_rest(w, max).len() ==> !is_space(#[trigger] hard_rest(w, max)[k]),
        max > 0 && w.len() > max ==> hard_cuts(w, max).len() > 0,
    decreases w.len(),
{
    if max > 0 && w.len() > max {
        let r = w.skip(max as int);
        assert forall|k: int| 0 <= k < r.len() implies !is_space(#[trigger] r[k]) by {
            assert(r[k] == w[k + max]);
        }
        lemma_hard_split_solid(r, max);
        assert(hard_rest(w, max) == hard_rest(r, max));
        let c = hard_cuts(w, max);
        let t = hard_cuts(r, max);
        assert forall|i: int, k: int| 0 <= i < c.len() && 0 <= k < c[i].len() implies !is_space(
            #[trigger] c[i][k],
        ) by {
            if i == 0 {
                assert(c[0] == w.take(max as int));
                assert(c[0][k] == w[k]);
            } else {
                assert(c[i] == t[i - 1]);
            }
        }
    }
}

/// Greedy wrapping in progress only finishes a line when the next piece does not fit on it,
/// and once a line is finished the current line is not empty.
proof fn lemma_wrap_fold_greedy(ws: Seq<Seq<char>>, max: nat)
    requires
        max > 0,
        all_words_solid(ws),
        forall|i: int| 0 <= i < ws.len() ==> #[trigger] ws[i].len() > 0,
    ensures
        breaks_forced(wrap_fold(ws, max).0, max),
        wrap_fold(ws, max).0.len() > 0 ==> wrap_fold(ws, max).1.len() > 0,
        wrap_fold(ws, max).0.len() > 0 ==> wrap_fold(ws, max).0.last().len() + 1 + word_len(
            wrap_fold(ws, max).1,
        ) > max,
    decreases ws.len(),
{
    if ws.len() > 0 {
        let init = ws.drop_last();
        assert(all_words_solid(init)) by {
            assert forall|i: int, k: int|
                0 <= i < init.len() && 0 <= k < init[i].len() implies !is_space(
                #[trigger] init[i][k],
            ) by {
                assert(init[i] == ws[i]);
            }
        }
        assert forall|i: int| 0 <= i < init.len() implies #[trigger] init[i].len() > 0 by {
            assert(init[i] == ws[i]);
        }
        lemma_wrap_fold_greedy(init, max);
        lemma_wrap_fold_nonempty(ws, max);
        let prev = wrap_fold(init, max);
        let lines = prev.0;
        let line = prev.1;
        let word = ws.last();
        assert forall|k: int| 0 <= k < word.len() implies !is_space(#[trigger] word[k]) by {
            assert(ws[ws.len() - 1][k] == word[k]);
        }
        assert(word.len() > 0);
        lemma_word_len_of_solid(word);
        lemma_hard_split_widths(word, max);
        lemma_hard_split_solid(word, max);
        let flush = needed_width(line, word) > max && line.len() > 0;
        let lines1 = if flush { lines.push(line) } else { lines };
        let line1 = if flush { Seq::<char>::empty() } else { line };
        let line2 = if line1.len() > 0 { line1.push(' ') } else { line1 };
        let cur = wrap_fold(ws, max);
        assert(cur == wrap_step(lines, line, word, max));
        // Finishing the line keeps every break forced.
        assert(breaks_forced(lines1, max)) by {
            if flush {
                assert forall|i: int| 0 <= i < lines1.len() - 1 implies #[trigger] lines1[i].len()
                    + 1 + word_len(lines1[i + 1]) > max by {
                    if i < lines.len() - 1 {
                        assert(lines1[i] == lines[i]);
                        assert(lines1[i + 1] == lines[i + 1]);
                    } else {
                        assert(lines1[i] == lines.last());
                        assert(lines1[i + 1] == line);
                    }
                }
            }
        }
        if word.len() > max {
            let cuts = hard_cuts(word, max);
            let rest = hard_rest(word, max);
            assert(line2.len() == 0);
            assert(lines1.len() > 0 ==> lines1.last() == line && line.len() > 0);
            let all = lines1 + cuts;
            assert(cur.0 == all);
            assert(cuts[0].len() == max);
            assert forall|k: int| 0 <= k < cuts[0].len() implies !is_space(#[trigger] cuts[0][k]) by {
            }
            lemma_word_len_of_solid(cuts[0]);
            assert forall|i: int| 0 <= i < all.len() - 1 implies #[trigger] all[i].len() + 1
                + word_len(all[i + 1]) > max by {
                if i < lines1.len() - 1 {
                    assert(all[i] == lines1[i]);
                    assert(all[i + 1] == lines1[i + 1]);
                } else if i == lines1.len() - 1 {
                    assert(all[i + 1] == cuts[0]);
                } else {
                    assert(all[i] == cuts[i - lines1.len()]);
                }
            }
            assert(all.last() == cuts[cuts.len() - 1]);
            assert(cur.1 =~= rest);
        } else {
            assert(cur.0 == lines1);
            if flush {
                assert(cur.1 =~= word);
            } else if line.len() > 0 {
                assert(cur.1 == line.push(' ') + word);
                lemma_word_len_push_space(line, word);
            }
        }
    }
}

/// Greedy wrapping: a line is finished only when what starts the next line would not fit on
/// it after a space, so no word that fits is ever moved to a later line.
pub proof fn lemma_wrap_greedy(text: Seq<char>, max: nat)
    requires
        max > 0,
    ensures
        forall|i: int|
            0 <= i < wrapped(text, max).len() - 1 ==> #[trigger] wrapped(text, max)[i].len() + 1
                + word_len(wrapped(text, max)[i + 1]) > max,
{
    let ws = words(text);
    lemma_words_solid(text);
    lemma_words_nonempty(text);
    lemma_wrap_fold_greedy(ws, max);
    let st = wrap_fold(ws, max);
    let out = wrapped(text, max);
    if st.1.len() > 0 {
        assert(out == st.0.push(st.1));
        assert forall|i: int| 0 <= i < out.len() - 1 implies #[trigger] out[i].len() + 1 + word_len(
            out[i + 1],
        ) > max by {
            if i < st.0.len() - 1 {
                assert(out[i] == st.0[i]);
                assert(out[i + 1] == st.0[i + 1]);
            } else {
                assert(out[i] == st.0.last());
                assert(out[i + 1] == st.1);
            }
        }
    } else {
        assert(st.0.len() == 0);
    }
}


/// A tidy line: each of its spaces is a single `' '` standing between two non-space
/// characters, so the line is its words joined by single spaces.
pub open spec fn tidy(s: Seq<char>) -> bool {
    forall|k: int|
        0 <= k < s.len() && is_space(#[trigger] s[k]) ==> s[k] == ' ' && 0 < k < s.len() - 1
            && !is_space(s[k + 1])
}

/// The pieces a word takes on lines `max` wide: the word itself when it fits, otherwise
/// `max`-wide chunks from the front and what is left.
pub open spec fn chunks(w: Seq<char>, max: nat) -> Seq<Seq<char>>
    decreases w.len(),
{
    if max > 0 && w.len() > max {
        seq![w.take(max as int)] + chunks(w.skip(max as int), max)
    } else {
        seq![w]
    }
}

/// The pieces of the words `ws`, in order.
pub open spec fn pieces(ws: Seq<Seq<char>>, max: nat) -> Seq<Seq<char>>
    decreases ws.len(),
{
    if ws.len() == 0 {
        seq![]
    } else {
        pieces(ws.drop_last(), max) + chunks(ws.last(), max)
    }
}

/// The words of the lines, line after line.
pub open spec fn line_words(lines: Seq<Seq<char>>) -> Seq<Seq<char>>
    decreases lines.len(),
{
    if lines.len() == 0 {
        seq![]
    } else {
        line_words(lines.drop_last()) + words(lines.last())
    }
}

proof fn lemma_line_words_push(lines: Seq<Seq<char>>, l: Seq<char>)
    ensures
        line_words(lines.push(l)) == line_words(lines) + words(l),
{
    assert(lines.push(l).drop_last() =~= lines);
}

/// Appending lines without spaces adds each as one word.
proof fn lemma_line_words_solid(x: Seq<Seq<char>>, cs: Seq<Seq<char>>)
    requires
        forall|i: int| 0 <= i < cs.len() ==> #[trigger] cs[i].len() > 0,
        forall|i: int, k: int| 0 <= i < cs.len() && 0 <= k < cs[i].len() ==> !is_space(#[trigger] cs[i][k]),
    ensures
        line_words(x + cs) == line_words(x) + cs,
    decreases cs.len(),
{
    if cs.len() == 0 {
        assert(x + cs =~= x);
        assert(line_words(x) + cs =~= line_words(x));
    } else {
        let init = cs.drop_last();
        lemma_line_words_solid(x, init);
        assert(x + cs =~= (x + init).push(cs.last()));
        lemma_line_words_push(x + init, cs.last());
        let c = cs.last();
        assert forall|k: int| 0 <= k < c.len() implies !is_space(#[trigger] c[k]) by {
            assert(cs[cs.len() - 1][k] == c[k]);
        }
        lemma_words_of_solid(c);
        assert(line_words(x) + init + seq![c] =~= line_words(x) + cs);
    }
}

/// A long word's chunks are its full-width cuts and then its rest.
proof fn lemma_chunks_split(w: Seq<char>, max: nat)
    requires
        max > 0,
    ensures
        chunks(w, max) == hard_cuts(w, max).push(hard_rest(w, max)),
    decreases w.len(),
{
    if w.len() > max {
        lemma_chunks_split(w.skip(max as int), max);
        assert(chunks(w, max) =~= hard_cuts(w, max).push(hard_rest(w, max)));
    } else {
        assert(hard_cuts(w, max).push(hard_rest(w, max)) =~= seq![w]);
    }
}

/// A line that takes a word after a space stays tidy.
proof fn lemma_tidy_join(a: Seq<char>, w: Seq<char>)
    requires
        tidy(a),
        a.len() > 0,
        w.len() > 0,
        forall|k: int| 0 <= k < w.len() ==> !is_space(#[trigger] w[k]),
    ensures
        tidy(a.push(' ') + w),
{
    let s = a.push(' ') + w;
    let n = a.len() as int;
    assert((' ' as u32) == 0x20);
    assert forall|k: int| 0 <= k < s.len() && is_space(#[trigger] s[k]) implies s[k] == ' ' && 0
        < k < s.len() - 1 && !is_space(s[k + 1]) by {
        if k < n {
            assert(s[k] == a[k]);
            if k < n - 1 {
                assert(s[k + 1] == a[k + 1]);
            } else {
                assert(!is_space(a[k]));
            }
        } else if k == n {
            assert(s[k + 1] == w[0]);
        } else {
            assert(s[k] == w[k - n - 1]);
        }
    }
}

/// Greedy wrapping in progress: its lines are tidy, and their words, with those of the
/// current line, are the pieces of the words placed so far.
proof fn lemma_wrap_fold_pieces(ws: Seq<Seq<char>>, max: nat)
    requires
        max > 0,
        all_words_solid(ws),
        forall|i: int| 0 <= i < ws.len() ==> #[trigger] ws[i].len() > 0,
    ensures
        line_words(wrap_fold(ws, max).0) + words(wrap_fold(ws, max).1) == pieces(ws, max),
        forall|i: int| 0 <= i < wrap_fold(ws, max).0.len() ==> tidy(#[trigger] wrap_fold(ws, max).0[i]),
        tidy(wrap_fold(ws, max).1),
    decreases ws.len(),
{
    if ws.len() == 0 {
        assert(words(Seq::<char>::empty()) =~= Seq::<Seq<char>>::empty());
        assert(line_words(Seq::<Seq<char>>::empty()) + words(Seq::<char>::empty()) =~= pieces(ws, max));
    } else {
        let init = ws.drop_last();
        assert(all_words_solid(init)) by {
            assert forall|i: int, k: int|
                0 <= i < init.len() && 0 <= k < init[i].len() implies !is_space(
                #[trigger] init[i][k],
            ) by {
                assert(init[i] == ws[i]);
            }
        }
        assert forall|i: int| 0 <= i < init.len() implies #[trigger] init[i].len() > 0 by {
            assert(init[i] == ws[i]);
        }
        lemma_wrap_fold_pieces(init, max);
        let prev = wrap_fold(init, max);
        let lines = prev.0;
        let line = prev.1;
        let word = ws.last();
        assert forall|k: int| 0 <= k < word.len() implies !is_space(#[trigger] word[k]) by {
            assert(ws[ws.len() - 1][k] == word[k]);
        }
        assert(word.len() > 0);
        lemma_words_of_solid(word);
        lemma_hard_split_widths(word, max);
        lemma_hard_split_solid(word, max);
        let flush = needed_width(line, word) > max && line.len() > 0;
        let lines1 = if flush { lines.push(line) } else { lines };
        let line1 = if flush { Seq::<char>::empty() } else { line };
        let cur = wrap_fold(ws, max);
        assert(cur == wrap_step(lines, line, word, max));
        assert(words(Seq::<char>::empty()) =~= Seq::<Seq<char>>::empty());
        assert(tidy(Seq::<char>::empty()));
        // Finishing the line moves its words to the finished lines.
        assert(line_words(lines1) + words(line1) == pieces(init, max)) by {
            if flush {
                lemma_line_words_push(lines, line);
                assert(line_words(lines1) + words(line1) =~= line_words(lines) + words(line));
            }
        }
        assert(forall|i: int| 0 <= i < lines1.len() ==> tidy(#[trigger] lines1[i]));
        assert(pieces(ws, max) == pieces(init, max) + chunks(word, max));
        if word.len() > max {
            let cuts = hard_cuts(word, max);
            let rest = hard_rest(word, max);
            assert(line1.len() == 0);
            lemma_chunks_split(word, max);
            assert forall|i: int| 0 <= i < cuts.len() implies #[trigger] cuts[i].len() > 0 by {
            }
            lemma_line_words_solid(lines1, cuts);
            assert(cur.0 == lines1 + cuts);
            assert(cur.1 =~= rest);
            lemma_words_of_solid(rest);
            assert(line_words(lines1) + cuts + seq![rest] =~= (line_words(lines1) + words(line1))
                + cuts.push(rest));
            assert forall|i: int| 0 <= i < cur.0.len() implies tidy(#[trigger] cur.0[i]) by {
                if i >= lines1.len() {
                    assert(cur.0[i] == cuts[i - lines1.len()]);
                } else {
                    assert(cur.0[i] == lines1[i]);
                }
            }
        } else {
            assert(chunks(word, max) == seq![word]);
            assert(cur.0 == lines1);
            if line1.len() > 0 {
                assert(cur.1 == line1.push(' ') + word);
                lemma_words_join(line1, word);
                lemma_tidy_join(line1, word);
                assert(line_words(lines1) + (words(line1) + seq![word]) =~= (line_words(lines1)
                    + words(line1)) + seq![word]);
            } else {
                assert(cur.1 =~= word);
                assert(line_words(lines1) + seq![word] =~= (line_words(lines1) + words(line1))
                    + seq![word]);
            }
        }
    }
}

/// The lines of a wrapping are tidy (words joined by single spaces), and their words, line
/// after line, are the words of the text in order, where a word longer than a line is cut
/// into line-wide chunks from the front and its rest.
pub proof fn lemma_wrap_pieces(text: Seq<char>, max: nat)
    requires
        max > 0,
    ensures
        line_words(wrapped(text, max)) == pieces(words(text), max),
        forall|i: int| 0 <= i < wrapped(text, max).len() ==> tidy(#[trigger] wrapped(text, max)[i]),
{
    let ws = words(text);
    lemma_words_solid(text);
    lemma_words_nonempty(text);
    lemma_wrap_fold_pieces(ws, max);
    let st = wrap_fold(ws, max);
    let out = wrapped(text, max);
    assert(words(Seq::<char>::empty()) =~= Seq::<Seq<char>>::empty());
    if st.1.len() > 0 {
        lemma_line_words_push(st.0, st.1);
    } else if st.0.len() > 0 {
        assert(line_words(st.0) + words(st.1) =~= line_words(st.0));
    } else {
        let one = seq![Seq::<char>::empty()];
        lemma_line_words_push(Seq::<Seq<char>>::empty(), Seq::<char>::empty());
        assert(Seq::<Seq<char>>::empty().push(Seq::<char>::empty()) =~= one);
        assert(line_words(one) =~= Seq::<Seq<char>>::empty());
        assert(line_words(st.0) + words(st.1) =~= Seq::<Seq<char>>::empty());
        assert(tidy(Seq::<char>::empty()));
    }
}

} // verus!
