//! Character-level text handling: whitespace, words, wrapping, truncation.

use vstd::prelude::*;

verus! {

/// Unicode `White_Space`: the characters that separate words.
pub open spec fn is_space(c: char) -> bool {
    let u = c as u32;
    ||| 0x09 <= u <= 0x0d
    ||| u == 0x20
    ||| u == 0x85
    ||| u == 0xa0
    ||| u == 0x1680
    ||| 0x2000 <= u <= 0x200a
    ||| u == 0x2028
    ||| u == 0x2029
    ||| u == 0x202f
    ||| u == 0x205f
    ||| u == 0x3000
}

/// Whether `c` separates words.
pub fn is_space_char(c: char) -> (b: bool)
    ensures
        b == is_space(c),
{
    let u = c as u32;
    (0x09 <= u && u <= 0x0d) || u == 0x20 || u == 0x85 || u == 0xa0 || u == 0x1680 || (0x2000
        <= u && u <= 0x200a) || u == 0x2028 || u == 0x2029 || u == 0x202f || u == 0x205f || u
        == 0x3000
}

/// The characters of `s`, in order.
pub fn chars_of(s: &str) -> (v: Vec<char>)
    ensures
        v@ == s@,
{
    let mut v: Vec<char> = Vec::new();
    for c in it: s.chars()
        invariant
            v@ == it.seq().take(it.index() as int),
    {
        v.push(c);
    }
    v
}

/// Length of the run of non-space characters that `s` starts with.
pub open spec fn word_len(s: Seq<char>) -> nat
    decreases s.len(),
{
    if s.len() == 0 || is_space(s[0]) {
        0
    } else {
        1 + word_len(s.drop_first())
    }
}

/// The words of `s`: its maximal runs of non-space characters, in order.
pub open spec fn words(s: Seq<char>) -> Seq<Seq<char>>
    decreases s.len(),
{
    if s.len() == 0 {
        seq![]
    } else if is_space(s[0]) {
        words(s.drop_first())
    } else {
        let n = word_len(s);
        proof {
            lemma_word_len_bound(s);
        }
        seq![s.take(n as int)] + words(s.skip(n as int))
    }
}

pub proof fn lemma_word_len_bound(s: Seq<char>)
    ensures
        word_len(s) <= s.len(),
        s.len() > 0 && !is_space(s[0]) ==> word_len(s) >= 1,
    decreases s.len(),
{
    if s.len() > 0 && !is_space(s[0]) {
        lemma_word_len_bound(s.drop_first());
    }
}

/// A run `s[i..j]` of non-space characters that ends at a space or at the end is a word's length.
proof fn lemma_word_len_run(s: Seq<char>, i: int, j: int)
    requires
        0 <= i <= j <= s.len(),
        forall|k: int| i <= k < j ==> !is_space(#[trigger] s[k]),
        j == s.len() || is_space(s[j]),
    ensures
        word_len(s.skip(i)) == j - i,
    decreases j - i,
{
    if i < j {
        lemma_word_len_run(s, i + 1, j);
        assert(s.skip(i).drop_first() =~= s.skip(i + 1));
    }
}

/// Every character of every word is a non-space character.
pub open spec fn all_words_solid(ws: Seq<Seq<char>>) -> bool {
    forall|i: int, k: int|
        0 <= i < ws.len() && 0 <= k < ws[i].len() ==> !is_space(#[trigger] ws[i][k])
}

/// The views of a vector of character vectors.
pub open spec fn views_of(v: Seq<Vec<char>>) -> Seq<Seq<char>> {
    v.map_values(|w: Vec<char>| w@)
}

/// Splits `s` into its words, as `str::split_whitespace` does.
pub fn split_words(s: &Vec<char>) -> (ws: Vec<Vec<char>>)
    ensures
        views_of(ws@) == words(s@),
{
    let n = s.len();
    let mut ws: Vec<Vec<char>> = Vec::new();
    let mut i: usize = 0;
    assert(s@.skip(0) =~= s@);
    assert(views_of(ws@) =~= Seq::<Seq<char>>::empty());
    assert(views_of(ws@) + words(s@) =~= words(s@));
    while i < n
        invariant
            n == s@.len(),
            i <= n,
            words(s@) == views_of(ws@) + words(s@.skip(i as int)),
        decreases n - i,
    {
        let ghost rest = s@.skip(i as int);
        if is_space_char(s[i]) {
            assert(rest.drop_first() =~= s@.skip(i + 1));
            i = i + 1;
        } else {
            let mut w: Vec<char> = Vec::new();
            let mut j: usize = i;
            while j < n && !is_space_char(s[j])
                invariant
                    n == s@.len(),
                    i <= j <= n,
                    w@ == s@.subrange(i as int, j as int),
                    forall|k: int| i <= k < j ==> !is_space(#[trigger] s@[k]),
                decreases n - j,
            {
                w.push(s[j]);
                j = j + 1;
            }
            proof {
                lemma_word_len_run(s@, i as int, j as int);
                assert(rest.take((j - i) as int) =~= w@);
                assert(rest.skip((j - i) as int) =~= s@.skip(j as int));
                assert(views_of(ws@.push(w)) =~= views_of(ws@).push(w@));
            }
            ws.push(w);
            i = j;
        }
    }
    assert(s@.skip(n as int) =~= Seq::<char>::empty());
    assert(views_of(ws@) + Seq::<Seq<char>>::empty() =~= views_of(ws@));
    ws
}

/// The non-space characters of `s`, in order.
pub open spec fn solid_chars(s: Seq<char>) -> Seq<char>
    decreases s.len(),
{
    if s.len() == 0 {
        seq![]
    } else if is_space(s[0]) {
        solid_chars(s.drop_first())
    } else {
        seq![s[0]] + solid_chars(s.drop_first())
    }
}

pub proof fn lemma_solid_chars_add(a: Seq<char>, b: Seq<char>)
    ensures
        solid_chars(a + b) == solid_chars(a) + solid_chars(b),
    decreases a.len(),
{
    if a.len() == 0 {
        assert(a + b =~= b);
        assert(solid_chars(a) + solid_chars(b) =~= solid_chars(b));
    } else {
        lemma_solid_chars_add(a.drop_first(), b);
        assert((a + b).drop_first() =~= a.drop_first() + b);
        assert((a + b)[0] == a[0]);
        if !is_space(a[0]) {
            assert(seq![a[0]] + (solid_chars(a.drop_first()) + solid_chars(b)) =~= (seq![a[0]]
                + solid_chars(a.drop_first())) + solid_chars(b));
        }
    }
}

/// A sequence without spaces keeps all its characters.
pub proof fn lemma_solid_chars_of_solid(w: Seq<char>)
    requires
        forall|k: int| 0 <= k < w.len() ==> !is_space(#[trigger] w[k]),
    ensures
        solid_chars(w) == w,
    decreases w.len(),
{
    if w.len() > 0 {
        assert forall|k: int| 0 <= k < w.drop_first().len() implies !is_space(
            #[trigger] w.drop_first()[k],
        ) by {
            assert(w.drop_first()[k] == w[k + 1]);
        }
        lemma_solid_chars_of_solid(w.drop_first());
        assert(seq![w[0]] + w.drop_first() =~= w);
    }
}

/// A space adds nothing to the non-space characters.
pub proof fn lemma_solid_chars_push_space(a: Seq<char>)
    ensures
        solid_chars(a.push(' ')) == solid_chars(a),
{
    lemma_solid_chars_add(a, seq![' ']);
    assert(a + seq![' '] =~= a.push(' '));
    let sp = seq![' '];
    assert(sp[0] == ' ');
    assert((' ' as u32) == 0x20);
    assert(is_space(sp[0]));
    assert(sp.drop_first() =~= Seq::<char>::empty());
    assert(solid_chars(sp.drop_first()) =~= Seq::<char>::empty());
    assert(solid_chars(sp) =~= Seq::<char>::empty());
    assert(solid_chars(a) + Seq::<char>::empty() =~= solid_chars(a));
}

proof fn lemma_word_len_solid(s: Seq<char>)
    ensures
        forall|k: int| 0 <= k < word_len(s) ==> !is_space(#[trigger] s[k]),
    decreases s.len(),
{
    lemma_word_len_bound(s);
    if s.len() > 0 && !is_space(s[0]) {
        lemma_word_len_solid(s.drop_first());
        assert forall|k: int| 0 <= k < word_len(s) implies !is_space(#[trigger] s[k]) by {
            if k > 0 {
                assert(s[k] == s.drop_first()[k - 1]);
            }
        }
    }
}

/// The words of a text hold no spaces.
pub proof fn lemma_words_solid(s: Seq<char>)
    ensures
        all_words_solid(words(s)),
    decreases s.len(),
{
    if s.len() > 0 {
        if is_space(s[0]) {
            lemma_words_solid(s.drop_first());
        } else {
            let n = word_len(s);
            lemma_word_len_bound(s);
            lemma_word_len_solid(s);
            lemma_words_solid(s.skip(n as int));
            let ws = words(s);
            let rest = words(s.skip(n as int));
            assert forall|i: int, k: int|
                0 <= i < ws.len() && 0 <= k < ws[i].len() implies !is_space(#[trigger] ws[i][k]) by {
                if i == 0 {
                    assert(ws[0] == s.take(n as int));
                } else {
                    assert(ws[i] == rest[i - 1]);
                }
            }
        }
    }
}

/// The words of a text, run together, are exactly its non-space characters.
pub proof fn lemma_words_flatten(s: Seq<char>)
    ensures
        words(s).flatten() == solid_chars(s),
    decreases s.len(),
{
    if s.len() == 0 {
        assert(words(s).flatten() =~= Seq::<char>::empty());
    } else if is_space(s[0]) {
        lemma_words_flatten(s.drop_first());
    } else {
        let n = word_len(s);
        lemma_word_len_bound(s);
        lemma_word_len_solid(s);
        lemma_words_flatten(s.skip(n as int));
        let w = s.take(n as int);
        assert forall|k: int| 0 <= k < w.len() implies !is_space(#[trigger] w[k]) by {
            assert(w[k] == s[k]);
        }
        lemma_solid_chars_of_solid(w);
        assert(s =~= w + s.skip(n as int));
        lemma_solid_chars_add(w, s.skip(n as int));
        let ws = words(s);
        assert(ws.first() == w);
        assert(ws.drop_first() =~= words(s.skip(n as int)));
    }
}

/// No word is empty.
pub proof fn lemma_words_nonempty(s: Seq<char>)
    ensures
        forall|i: int| 0 <= i < words(s).len() ==> #[trigger] words(s)[i].len() > 0,
    decreases s.len(),
{
    if s.len() > 0 {
        if is_space(s[0]) {
            lemma_words_nonempty(s.drop_first());
            assert(words(s) == words(s.drop_first()));
        } else {
            let n = word_len(s);
            lemma_word_len_bound(s);
            lemma_words_nonempty(s.skip(n as int));
            assert(n >= 1);
            assert(s.take(n as int).len() == n);
            let ws = words(s);
            assert forall|i: int| 0 <= i < ws.len() implies #[trigger] ws[i].len() > 0 by {
                if i > 0 {
                    assert(ws[i] == words(s.skip(n as int))[i - 1]);
                } else {
                    assert(ws[0] == s.take(n as int));
                }
            }
        }
    }
}

/// A sequence without spaces is one run: its whole length.
pub proof fn lemma_word_len_of_solid(w: Seq<char>)
    requires
        forall|k: int| 0 <= k < w.len() ==> !is_space(#[trigger] w[k]),
    ensures
        word_len(w) == w.len(),
    decreases w.len(),
{
    if w.len() > 0 {
        assert forall|k: int| 0 <= k < w.drop_first().len() implies !is_space(
            #[trigger] w.drop_first()[k],
        ) by {
            assert(w.drop_first()[k] == w[k + 1]);
        }
        lemma_word_len_of_solid(w.drop_first());
    }
}

/// What follows a space does not change the leading run.
pub proof fn lemma_word_len_push_space(a: Seq<char>, b: Seq<char>)
    ensures
        word_len(a.push(' ') + b) == word_len(a),
    decreases a.len(),
{
    let s = a.push(' ') + b;
    assert((' ' as u32) == 0x20);
    if a.len() == 0 {
        assert(s[0] == ' ');
    } else {
        assert(s[0] == a[0]);
        if !is_space(a[0]) {
            lemma_word_len_push_space(a.drop_first(), b);
            assert(s.drop_first() =~= a.drop_first().push(' ') + b);
        }
    }
}

/// A run without spaces is a single word.
pub proof fn lemma_words_of_solid(w: Seq<char>)
    requires
        w.len() > 0,
        forall|k: int| 0 <= k < w.len() ==> !is_space(#[trigger] w[k]),
    ensures
        words(w) == seq![w],
{
    lemma_word_len_of_solid(w);
    assert(!is_space(w[0]));
    assert(w.take(w.len() as int) =~= w);
    assert(w.skip(w.len() as int) =~= Seq::<char>::empty());
    assert(words(w.skip(w.len() as int)) =~= Seq::<Seq<char>>::empty());
}

/// Joining two texts with a space joins their words.
pub proof fn lemma_words_join(a: Seq<char>, b: Seq<char>)
    ensures
        words(a.push(' ') + b) == words(a) + words(b),
    decreases a.len(),
{
    let s = a.push(' ') + b;
    assert((' ' as u32) == 0x20);
    if a.len() == 0 {
        assert(s[0] == ' ');
        assert(s.drop_first() =~= b);
        assert(words(a) =~= Seq::<Seq<char>>::empty());
        assert(words(a) + words(b) =~= words(b));
    } else if is_space(a[0]) {
        assert(s[0] == a[0]);
        assert(s.drop_first() =~= a.drop_first().push(' ') + b);
        lemma_words_join(a.drop_first(), b);
    } else {
        assert(s[0] == a[0]);
        let n = word_len(a);
        lemma_word_len_push_space(a, b);
        lemma_word_len_bound(a);
        assert(s.take(n as int) =~= a.take(n as int));
        assert(s.skip(n as int) =~= a.skip(n as int).push(' ') + b);
        lemma_words_join(a.skip(n as int), b);
        assert(words(a) == seq![a.take(n as int)] + words(a.skip(n as int)));
        assert(words(s) == seq![s.take(n as int)] + words(s.skip(n as int)));
        assert(seq![a.take(n as int)] + (words(a.skip(n as int)) + words(b)) =~= (seq![
            a.take(n as int),
        ] + words(a.skip(n as int))) + words(b));
    }
}

/// `String::push`: appends one character.
#[verifier::external_body]
pub(crate) fn push_char(s: &mut String, c: char)
    ensures
        final(s)@ == old(s)@.push(c),
{
    s.push(c);
}

/// Appends `v[from..to]` to `s`.
pub fn append_chars(s: &mut String, v: &Vec<char>, from: usize, to: usize)
    requires
        from <= to <= v@.len(),
    ensures
        final(s)@ == old(s)@ + v@.subrange(from as int, to as int),
{
    let mut i = from;
    while i < to
        invariant
            from <= i <= to <= v@.len(),
            s@ == old(s)@ + v@.subrange(from as int, i as int),
        decreases to - i,
    {
        push_char(s, v[i]);
        assert(v@.subrange(from as int, i + 1) =~= v@.subrange(from as int, i as int).push(v@[i as int]));
        i = i + 1;
    }
}

/// A string holding `v[from..to]`.
pub fn string_of(v: &Vec<char>, from: usize, to: usize) -> (s: String)
    requires
        from <= to <= v@.len(),
    ensures
        s@ == v@.subrange(from as int, to as int),
{
    let mut s = String::new();
    append_chars(&mut s, v, from, to);
    assert(Seq::<char>::empty() + v@.subrange(from as int, to as int) =~= v@.subrange(from as int, to as int));
    s
}

/// The character sequences of a list of strings.
pub open spec fn strings_view(v: Seq<String>) -> Seq<Seq<char>> {
    v.map_values(|s: String| s@)
}

/// The ellipsis that marks cut-off text.
pub open spec fn ellipsis() -> Seq<char> {
    seq!['.', '.', '.']
}

/// How many characters of a text longer than `max` are kept before the ellipsis.
pub open spec fn kept_chars(max: nat) -> nat {
    if max >= 3 {
        (max - 3) as nat
    } else {
        0
    }
}

/// `text` cut to `max` characters: unchanged when it fits, otherwise its first
/// `max - 3` characters (none when `max < 3`) followed by `...`.
pub open spec fn truncated(text: Seq<char>, max: nat) -> Seq<char> {
    if text.len() > max {
        text.take(kept_chars(max) as int) + ellipsis()
    } else {
        text
    }
}

/// Cuts `text` to at most `max_chars` characters, marking a cut with `...`.
pub fn truncate_chars(text: &str, max_chars: usize) -> (r: String)
    ensures
        r@ == truncated(text@, max_chars as nat),
{
    let chars = chars_of(text);
    let n = chars.len();
    if n > max_chars {
        let keep = max_chars.saturating_sub(3);
        let mut r = string_of(&chars, 0, keep);
        push_char(&mut r, '.');
        push_char(&mut r, '.');
        push_char(&mut r, '.');
        assert(r@ =~= truncated(text@, max_chars as nat));
        r
    } else {
        let r = string_of(&chars, 0, n);
        assert(r@ =~= text@);
        r
    }
}

/// Text that fits is kept as it is; longer text is cut to `max` characters (three when
/// `max < 3`), ending in `...` after a prefix of the text.
pub proof fn lemma_truncated_shape(text: Seq<char>, max: nat)
    ensures
        text.len() <= max ==> truncated(text, max) == text,
        text.len() > max ==> {
            let r = truncated(text, max);
            &&& r.len() == (if max >= 3 { max } else { 3 })
            &&& r.skip(r.len() - 3) == ellipsis()
            &&& r.take(r.len() - 3) == text.take(r.len() - 3)
        },
{
    if text.len() > max {
        let r = truncated(text, max);
        let k = kept_chars(max) as int;
        assert(r.skip(r.len() - 3) =~= ellipsis());
        assert(r.take(r.len() - 3) =~= text.take(k));
    }
}

} // verus!
