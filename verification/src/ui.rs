//! The screen's interaction: the events the host forwards, and which descriptions are open.

use vstd::prelude::*;
use crate::text::{chars_of, string_of};
use std::collections::HashSet;

verus! {

/// An event the host forwards to the mod-list screen, with its coordinates still as text.
#[derive(Debug, Clone, PartialEq, Eq)]
pub enum UiEvent {
    /// `scroll:DY`: the wheel moved; holds the text of `DY`.
    Scroll(String),
    /// `click:X:Y`: a button was pressed at the point.
    Click(String, String),
    /// `drag:X:Y`: the pointer moved with a button held.
    Drag(String, String),
    /// `release:...`: the button was let go.
    Release,
    /// `close`: the screen was closed.
    Close,
    /// Anything else, which the screen ignores.
    Other,
}

/// What an event holds, as character sequences.
pub enum EventView {
    Scroll(Seq<char>),
    Click(Seq<char>, Seq<char>),
    Drag(Seq<char>, Seq<char>),
    Release,
    Close,
    Other,
}

impl View for UiEvent {
    type V = EventView;

    open spec fn view(&self) -> EventView {
        match self {
            UiEvent::Scroll(d) => EventView::Scroll(d@),
            UiEvent::Click(x, y) => EventView::Click(x@, y@),
            UiEvent::Drag(x, y) => EventView::Drag(x@, y@),
            UiEvent::Release => EventView::Release,
            UiEvent::Close => EventView::Close,
            UiEvent::Other => EventView::Other,
        }
    }
}

/// `s` starts with `p`.
pub open spec fn has_prefix(s: Seq<char>, p: Seq<char>) -> bool {
    p.len() <= s.len() && s.take(p.len() as int) == p
}

/// The position of the first `:` in `s`, or its length when there is none.
pub open spec fn colon_index(s: Seq<char>) -> nat
    decreases s.len(),
{
    if s.len() == 0 || s[0] == ':' {
        0
    } else {
        1 + colon_index(s.drop_first())
    }
}

/// The first two `:`-separated pieces of `s`, when it has at least two.
pub open spec fn two_pieces(s: Seq<char>) -> Option<(Seq<char>, Seq<char>)> {
    let i = colon_index(s);
    if i < s.len() {
        let rest = s.skip(i + 1 as int);
        Some((s.take(i as int), rest.take(colon_index(rest) as int)))
    } else {
        None
    }
}

/// The event that the host's text `e` stands for; the first matching form wins.
pub open spec fn parsed_event(e: Seq<char>) -> EventView {
    if has_prefix(e, "scroll:"@) {
        EventView::Scroll(e.skip(7))
    } else if has_prefix(e, "click:"@) {
        match two_pieces(e.skip(6)) {
            Some((x, y)) => EventView::Click(x, y),
            None => EventView::Other,
        }
    } else if has_prefix(e, "drag:"@) {
        match two_pieces(e.skip(5)) {
            Some((x, y)) => EventView::Drag(x, y),
            None => EventView::Other,
        }
    } else if has_prefix(e, "release:"@) {
        EventView::Release
    } else if e == "close"@ {
        EventView::Close
    } else {
        EventView::Other
    }
}

proof fn lemma_colon_index_bound(s: Seq<char>)
    ensures
        colon_index(s) <= s.len(),
        colon_index(s) < s.len() ==> s[colon_index(s) as int] == ':',
        forall|k: int| 0 <= k < colon_index(s) ==> s[k] != ':',
    decreases s.len(),
{
    if s.len() > 0 && s[0] != ':' {
        lemma_colon_index_bound(s.drop_first());
        assert forall|k: int| 0 <= k < colon_index(s) implies s[k] != ':' by {
            if k > 0 {
                assert(s[k] == s.drop_first()[k - 1]);
            }
        }
    }
}

proof fn lemma_colon_index_run(s: Seq<char>, i: int, j: int)
    requires
        0 <= i <= j <= s.len(),
        forall|k: int| i <= k < j ==> s[k] != ':',
        j == s.len() || s[j] == ':',
    ensures
        colon_index(s.skip(i)) == j - i,
    decreases j - i,
{
    if i < j {
        lemma_colon_index_run(s, i + 1, j);
        assert(s.skip(i).drop_first() =~= s.skip(i + 1));
    }
}

/// The position of the first `:` in `v` at or after `from`, or `v.len()`.
fn find_colon(v: &Vec<char>, from: usize) -> (r: usize)
    requires
        from <= v@.len(),
    ensures
        r == from + colon_index(v@.skip(from as int)),
{
    let mut j = from;
    while j < v.len() && v[j] != ':'
        invariant
            from <= j <= v@.len(),
            forall|k: int| from <= k < j ==> v@[k] != ':',
        decreases v@.len() - j,
    {
        j = j + 1;
    }
    proof {
        lemma_colon_index_run(v@, from as int, j as int);
    }
    j
}

/// Whether `v` starts with the characters of `p`.
fn starts_with(v: &Vec<char>, p: &str) -> (b: bool)
    ensures
        b == has_prefix(v@, p@),
{
    let n = p.unicode_len();
    if n > v.len() {
        return false;
    }
    let mut i: usize = 0;
    while i < n
        invariant
            n == p@.len(),
            n <= v@.len(),
            i <= n,
            forall|k: int| 0 <= k < i ==> v@[k] == p@[k],
        decreases n - i,
    {
        if v[i] != p.get_char(i) {
            assert(v@.take(n as int)[i as int] != p@[i as int]);
            return false;
        }
        i = i + 1;
    }
    assert(v@.take(n as int) =~= p@);
    true
}

/// Whether `v` holds exactly the characters of `p`.
fn same_text(v: &Vec<char>, p: &str) -> (b: bool)
    ensures
        b == (v@ == p@),
{
    if v.len() != p.unicode_len() {
        return false;
    }
    let r = starts_with(v, p);
    assert(v@.take(p@.len() as int) =~= v@);
    r
}

/// The first two `:`-separated pieces of `v[from..]`, as strings.
fn split_pieces(v: &Vec<char>, from: usize) -> (r: Option<(String, String)>)
    requires
        from <= v@.len(),
    ensures
        match two_pieces(v@.skip(from as int)) {
            Some((x, y)) => r matches Some((a, b)) && a@ == x && b@ == y,
            None => r is None,
        },
{
    let ghost s = v@.skip(from as int);
    let i = find_colon(v, from);
    proof {
        lemma_colon_index_bound(s);
    }
    if i < v.len() {
        proof {
            lemma_colon_index_bound(v@.skip(i + 1 as int));
        }
        let j = find_colon(v, i + 1);
        let x = string_of(v, from, i);
        let y = string_of(v, i + 1, j);
        proof {
            let ci = colon_index(s);
            let rest = s.skip(ci + 1 as int);
            assert(rest =~= v@.skip(i + 1));
            assert(x@ =~= s.take(ci as int));
            lemma_colon_index_bound(rest);
            assert(y@ =~= rest.take(colon_index(rest) as int));
        }
        Some((x, y))
    } else {
        None
    }
}

/// Reads the host's event text: `scroll:DY`, `click:X:Y`, `drag:X:Y`, `release:...` or
/// `close`.  Coordinates are the first two `:`-separated pieces; with fewer the event is
/// ignored.
pub fn parse_event(event: &str) -> (ev: UiEvent)
    ensures
        ev@ == parsed_event(event@),
{
    let v = chars_of(event);
    if starts_with(&v, "scroll:") {
        proof {
            reveal_strlit("scroll:");
        }
        UiEvent::Scroll(string_of(&v, 7, v.len()))
    } else if starts_with(&v, "click:") {
        proof {
            reveal_strlit("click:");
        }
        match split_pieces(&v, 6) {
            Some((x, y)) => UiEvent::Click(x, y),
            None => UiEvent::Other,
        }
    } else if starts_with(&v, "drag:") {
        proof {
            reveal_strlit("drag:");
        }
        match split_pieces(&v, 5) {
            Some((x, y)) => UiEvent::Drag(x, y),
            None => UiEvent::Other,
        }
    } else if starts_with(&v, "release:") {
        UiEvent::Release
    } else if same_text(&v, "close") {
        UiEvent::Close
    } else {
        UiEvent::Other
    }
}

/// `set` with `idx` taken out when it was in, and put in when it was not.
pub open spec fn toggled(set: Set<usize>, idx: usize) -> Set<usize> {
    if set.contains(idx) {
        set.remove(idx)
    } else {
        set.insert(idx)
    }
}

/// Opens the description card of entry `idx` when it was closed, and closes it when open.
pub fn toggle_expanded(expanded: &mut HashSet<usize>, idx: usize)
    ensures
        final(expanded)@ == toggled(old(expanded)@, idx),
{
    broadcast use vstd::std_specs::hash::group_hash_axioms;

    if !expanded.remove(&idx) {
        expanded.insert(idx);
    }
}

/// Toggling an entry twice leaves the open cards as they were, and toggling one entry never
/// opens or closes another.
pub proof fn lemma_toggle_twice(set: Set<usize>, idx: usize)
    ensures
        toggled(toggled(set, idx), idx) == set,
        toggled(set, idx).contains(idx) == !set.contains(idx),
        forall|j: usize| j != idx ==> (#[trigger] toggled(set, idx).contains(j) == set.contains(j)),
{
    assert(toggled(toggled(set, idx), idx) =~= set);
}

/// `scroll:` followed by a delta reads back as that delta.
pub proof fn lemma_scroll_roundtrip(dy: Seq<char>)
    ensures
        parsed_event("scroll:"@ + dy) == EventView::Scroll(dy),
{
    reveal_strlit("scroll:");
    let e = "scroll:"@ + dy;
    assert(e.take(7) =~= "scroll:"@);
    assert(e.skip(7) =~= dy);
}

proof fn lemma_colon_index_of_solid(x: Seq<char>, tail: Seq<char>)
    requires
        !x.contains(':'),
        tail.len() == 0 || tail[0] == ':',
    ensures
        colon_index(x + tail) == x.len(),
{
    let s = x + tail;
    assert forall|k: int| 0 <= k < x.len() implies s[k] != ':' by {
        assert(s[k] == x[k]);
        if x[k] == ':' {
            assert(x.contains(':'));
        }
    }
    if tail.len() > 0 {
        assert(s[x.len() as int] == tail[0]);
    }
    lemma_colon_index_run(s, 0, x.len() as int);
    assert(s.skip(0) =~= s);
}

/// Two coordinates without `:`, joined by `:`, are read back as they were.
pub proof fn lemma_two_pieces_roundtrip(x: Seq<char>, y: Seq<char>)
    requires
        !x.contains(':'),
        !y.contains(':'),
    ensures
        two_pieces(x + seq![':'] + y) == Some((x, y)),
{
    let s = x + seq![':'] + y;
    assert(s =~= x + (seq![':'] + y));
    lemma_colon_index_of_solid(x, seq![':'] + y);
    let rest = s.skip(x.len() + 1 as int);
    assert(rest =~= y + Seq::<char>::empty());
    lemma_colon_index_of_solid(y, Seq::<char>::empty());
    assert(s.take(x.len() as int) =~= x);
    assert(rest.take(y.len() as int) =~= y);
}

/// `click:X:Y` with coordinates free of `:` reads back as a click at `(X, Y)`.
pub proof fn lemma_click_roundtrip(x: Seq<char>, y: Seq<char>)
    requires
        !x.contains(':'),
        !y.contains(':'),
    ensures
        parsed_event("click:"@ + (x + seq![':'] + y)) == EventView::Click(x, y),
{
    reveal_strlit("click:");
    reveal_strlit("scroll:");
    let e = "click:"@ + (x + seq![':'] + y);
    assert(e.take(6) =~= "click:"@);
    assert(e[0] == 'c');
    assert(!has_prefix(e, "scroll:"@)) by {
        if has_prefix(e, "scroll:"@) {
            assert(e.take(7)[0] == 's');
        }
    }
    assert(e.skip(6) =~= x + seq![':'] + y);
    lemma_two_pieces_roundtrip(x, y);
}

/// `drag:X:Y` with coordinates free of `:` reads back as a drag at `(X, Y)`.
pub proof fn lemma_drag_roundtrip(x: Seq<char>, y: Seq<char>)
    requires
        !x.contains(':'),
        !y.contains(':'),
    ensures
        parsed_event("drag:"@ + (x + seq![':'] + y)) == EventView::Drag(x, y),
{
    reveal_strlit("drag:");
    reveal_strlit("click:");
    reveal_strlit("scroll:");
    let e = "drag:"@ + (x + seq![':'] + y);
    assert(e.take(5) =~= "drag:"@);
    assert(e[0] == 'd');
    assert(!has_prefix(e, "scroll:"@)) by {
        if has_prefix(e, "scroll:"@) {
            assert(e.take(7)[0] == 's');
        }
    }
    assert(!has_prefix(e, "click:"@)) by {
        if has_prefix(e, "click:"@) {
            assert(e.take(6)[0] == 'c');
        }
    }
    assert(e.skip(5) =~= x + seq![':'] + y);
    lemma_two_pieces_roundtrip(x, y);
}


/// Every text that starts with `release:` is a release, whatever follows.
pub proof fn lemma_release_any(t: Seq<char>)
    ensures
        parsed_event("release:"@ + t) == EventView::Release,
{
    reveal_strlit("release:");
    reveal_strlit("scroll:");
    reveal_strlit("click:");
    reveal_strlit("drag:");
    let e = "release:"@ + t;
    assert(e[0] == 'r');
    assert(e.take(8) =~= "release:"@);
    assert(!has_prefix(e, "scroll:"@)) by {
        if has_prefix(e, "scroll:"@) {
            assert(e.take(7)[0] == 's');
        }
    }
    assert(!has_prefix(e, "click:"@)) by {
        if has_prefix(e, "click:"@) {
            assert(e.take(6)[0] == 'c');
        }
    }
    assert(!has_prefix(e, "drag:"@)) by {
        if has_prefix(e, "drag:"@) {
            assert(e.take(5)[0] == 'd');
        }
    }
}

/// `close` is the close event.
pub proof fn lemma_close_event()
    ensures
        parsed_event("close"@) == EventView::Close,
{
    reveal_strlit("close");
    reveal_strlit("release:");
    reveal_strlit("scroll:");
    reveal_strlit("click:");
    reveal_strlit("drag:");
    let e = "close"@;
    assert(e.len() == 5 && e[0] == 'c' && e[1] == 'l');
    assert(!has_prefix(e, "scroll:"@));
    assert(!has_prefix(e, "click:"@));
    assert(!has_prefix(e, "drag:"@)) by {
        if has_prefix(e, "drag:"@) {
            assert(e.take(5)[0] == 'd');
        }
    }
    assert(!has_prefix(e, "release:"@));
}

/// A click with a single coordinate is ignored.
pub proof fn lemma_click_one_coordinate(x: Seq<char>)
    requires
        !x.contains(':'),
    ensures
        parsed_event("click:"@ + x) == EventView::Other,
{
    reveal_strlit("click:");
    reveal_strlit("scroll:");
    let e = "click:"@ + x;
    assert(e.take(6) =~= "click:"@);
    assert(e[0] == 'c');
    assert(!has_prefix(e, "scroll:"@)) by {
        if has_prefix(e, "scroll:"@) {
            assert(e.take(7)[0] == 's');
        }
    }
    assert(e.skip(6) =~= x + Seq::<char>::empty());
    lemma_colon_index_of_solid(x, Seq::<char>::empty());
}


/// Only the first two `:`-separated pieces are coordinates; what follows a third `:` is
/// ignored.
pub proof fn lemma_two_pieces_extra(x: Seq<char>, y: Seq<char>, t: Seq<char>)
    requires
        !x.contains(':'),
        !y.contains(':'),
    ensures
        two_pieces(x + seq![':'] + y + seq![':'] + t) == Some((x, y)),
{
    let s = x + seq![':'] + y + seq![':'] + t;
    assert(s =~= x + (seq![':'] + (y + seq![':'] + t)));
    lemma_colon_index_of_solid(x, seq![':'] + (y + seq![':'] + t));
    let rest = s.skip(x.len() + 1 as int);
    assert(rest =~= y + (seq![':'] + t));
    lemma_colon_index_of_solid(y, seq![':'] + t);
    assert(s.take(x.len() as int) =~= x);
    assert(rest.take(y.len() as int) =~= y);
}

/// `click:X:Y:...` is a click at `(X, Y)` whatever follows the second coordinate.
pub proof fn lemma_click_extra(x: Seq<char>, y: Seq<char>, t: Seq<char>)
    requires
        !x.contains(':'),
        !y.contains(':'),
    ensures
        parsed_event("click:"@ + (x + seq![':'] + y + seq![':'] + t)) == EventView::Click(x, y),
{
    reveal_strlit("click:");
    reveal_strlit("scroll:");
    let e = "click:"@ + (x + seq![':'] + y + seq![':'] + t);
    assert(e.take(6) =~= "click:"@);
    assert(e[0] == 'c');
    assert(!has_prefix(e, "scroll:"@)) by {
        if has_prefix(e, "scroll:"@) {
            assert(e.take(7)[0] == 's');
        }
    }
    assert(e.skip(6) =~= x + seq![':'] + y + seq![':'] + t);
    lemma_two_pieces_extra(x, y, t);
}

/// `drag:X:Y:...` is a drag at `(X, Y)` whatever follows the second coordinate.
pub proof fn lemma_drag_extra(x: Seq<char>, y: Seq<char>, t: Seq<char>)
    requires
        !x.contains(':'),
        !y.contains(':'),
    ensures
        parsed_event("drag:"@ + (x + seq![':'] + y + seq![':'] + t)) == EventView::Drag(x, y),
{
    reveal_strlit("drag:");
    reveal_strlit("click:");
    reveal_strlit("scroll:");
    let e = "drag:"@ + (x + seq![':'] + y + seq![':'] + t);
    assert(e.take(5) =~= "drag:"@);
    assert(e[0] == 'd');
    assert(!has_prefix(e, "scroll:"@)) by {
        if has_prefix(e, "scroll:"@) {
            assert(e.take(7)[0] == 's');
        }
    }
    assert(!has_prefix(e, "click:"@)) by {
        if has_prefix(e, "click:"@) {
            assert(e.take(6)[0] == 'c');
        }
    }
    assert(e.skip(5) =~= x + seq![':'] + y + seq![':'] + t);
    lemma_two_pieces_extra(x, y, t);
}

/// A text that starts with none of `scroll:`, `click:`, `drag:`, `release:` and is not
/// `close` is ignored.
pub proof fn lemma_unknown_event(e: Seq<char>)
    requires
        !has_prefix(e, "scroll:"@),
        !has_prefix(e, "click:"@),
        !has_prefix(e, "drag:"@),
        !has_prefix(e, "release:"@),
        e != "close"@,
    ensures
        parsed_event(e) == EventView::Other,
{
}

} // verus!
