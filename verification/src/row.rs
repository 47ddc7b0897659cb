//! The text that the mod list shows: each row's lines and the header's count.

use vstd::prelude::*;
use crate::entry::{ModEntry, ModSource};
use crate::text::{push_char, strings_view, truncate_chars, truncated, words};
use crate::wrap::{wrap, wrapped};

verus! {

/// The texts of one row of the list.
#[derive(Debug, Clone)]
pub struct RowText {
    /// `v` when the description card is open, `>` when it is closed.
    pub marker: String,
    /// The mod's name.
    pub name: String,
    /// `v` followed by the mod's version.
    pub version: String,
    /// `[Yog]` or `[MC]`, after the list the mod is on.
    pub badge: String,
    /// `by` and the authors (`by unknown` when there are none), cut to the row's width.
    pub authors: String,
    /// The description: wrapped to the row's width when open, one cut line when closed.
    pub description: Vec<String>,
    /// When open: `id: `, the mod's id and, in brackets, the list it is on.
    pub footer: Option<String>,
}

/// The badge of a mod's list.
pub open spec fn badge_of(source: ModSource) -> Seq<char> {
    match source {
        ModSource::Yog => "[Yog]"@,
        ModSource::Platform => "[MC]"@,
    }
}

/// The name of a mod's list in its footer.
pub open spec fn source_label_of(source: ModSource) -> Seq<char> {
    match source {
        ModSource::Yog => "yog mod"@,
        ModSource::Platform => "platform mod"@,
    }
}

/// The authors line before it is cut to the row's width.
pub open spec fn authors_text(authors: Seq<char>) -> Seq<char> {
    if authors.len() == 0 {
        "by unknown"@
    } else {
        "by "@ + authors
    }
}

/// The footer of an open row.
pub open spec fn footer_text(id: Seq<char>, source: ModSource) -> Seq<char> {
    "id: "@ + id + "  ("@ + source_label_of(source) + ")"@
}

/// The description lines of a row.
pub open spec fn description_lines(description: Seq<char>, is_open: bool, width: nat) -> Seq<
    Seq<char>,
> {
    if is_open {
        wrapped(description, width)
    } else {
        seq![truncated(description, width)]
    }
}

/// The badge of a mod's list.
pub fn badge(source: ModSource) -> (s: String)
    ensures
        s@ == badge_of(source),
{
    match source {
        ModSource::Yog => String::from_str("[Yog]"),
        ModSource::Platform => String::from_str("[MC]"),
    }
}

/// The name of a mod's list in its footer.
pub fn source_label(source: ModSource) -> (s: String)
    ensures
        s@ == source_label_of(source),
{
    match source {
        ModSource::Yog => String::from_str("yog mod"),
        ModSource::Platform => String::from_str("platform mod"),
    }
}

/// The authors line, cut to `width` characters.
pub fn authors_line(authors: &str, width: usize) -> (s: String)
    ensures
        s@ == truncated(authors_text(authors@), width as nat),
{
    if authors.unicode_len() == 0 {
        truncate_chars("by unknown", width)
    } else {
        let mut by = String::from_str("by ");
        by.append(authors);
        truncate_chars(by.as_str(), width)
    }
}

/// The footer of an open row.
pub fn footer(id: &str, source: ModSource) -> (s: String)
    ensures
        s@ == footer_text(id@, source),
{
    let mut s = String::from_str("id: ");
    s.append(id);
    s.append("  (");
    let label = source_label(source);
    s.append(label.as_str());
    s.append(")");
    s
}

/// The texts of a row for `entry`, with its description card open or closed, at a
/// description width of `width` characters.
pub fn row_text(entry: &ModEntry, is_open: bool, width: usize) -> (r: RowText)
    requires
        is_open ==> width > 0 || words(entry.description@).len() == 0,
    ensures
        r.marker@ == (if is_open { "v"@ } else { ">"@ }),
        r.name@ == entry.name@,
        r.version@ == seq!['v'] + entry.version@,
        r.badge@ == badge_of(entry.source),
        r.authors@ == truncated(authors_text(entry.authors@), width as nat),
        strings_view(r.description@) == description_lines(entry.description@, is_open, width as nat),
        is_open ==> (r.footer matches Some(f) && f@ == footer_text(entry.id@, entry.source)),
        !is_open ==> r.footer is None,
{
    let marker = if is_open {
        String::from_str("v")
    } else {
        String::from_str(">")
    };
    let mut version = String::new();
    push_char(&mut version, 'v');
    version.append(entry.version.as_str());
    let description = if is_open {
        wrap(entry.description.as_str(), width)
    } else {
        let line = truncate_chars(entry.description.as_str(), width);
        let mut one: Vec<String> = Vec::new();
        one.push(line);
        assert(strings_view(one@) =~= seq![line@]);
        one
    };
    let footer = if is_open {
        Some(footer(entry.id.as_str(), entry.source))
    } else {
        None
    };
    assert(Seq::<char>::empty().push('v') + entry.version@ =~= seq!['v'] + entry.version@);
    RowText {
        marker,
        name: entry.name.clone(),
        version,
        badge: badge(entry.source),
        authors: authors_line(entry.authors.as_str(), width),
        description,
        footer,
    }
}

/// The decimal digits, `0` to `9`.
pub open spec fn digits() -> Seq<char> {
    seq!['0', '1', '2', '3', '4', '5', '6', '7', '8', '9']
}

/// The decimal numeral of `n`, without leading zeros.
pub open spec fn decimal(n: nat) -> Seq<char>
    decreases n,
{
    if n < 10 {
        seq![digits()[n as int]]
    } else {
        decimal(n / 10).push(digits()[(n % 10) as int])
    }
}

/// The digit for `d < 10`.
fn digit_char(d: usize) -> (c: char)
    requires
        d < 10,
    ensures
        c == digits()[d as int],
{
    match d {
        0 => '0',
        1 => '1',
        2 => '2',
        3 => '3',
        4 => '4',
        5 => '5',
        6 => '6',
        7 => '7',
        8 => '8',
        _ => '9',
    }
}

/// Appends the decimal numeral of `n` to `s`.
fn push_decimal(s: &mut String, n: usize)
    ensures
        final(s)@ == old(s)@ + decimal(n as nat),
    decreases n,
{
    if n >= 10 {
        push_decimal(s, n / 10);
        push_char(s, digit_char(n % 10));
        assert(old(s)@ + decimal(n as nat) =~= (old(s)@ + decimal((n / 10) as nat)).push(
            digits()[(n % 10) as int],
        ));
    } else {
        push_char(s, digit_char(n));
        assert(old(s)@ + decimal(n as nat) =~= old(s)@.push(digits()[n as int]));
    }
}

/// The header's count of listed mods: the number, then ` mod(s)`.
pub fn count_label(n: usize) -> (s: String)
    ensures
        s@ == decimal(n as nat) + " mod(s)"@,
{
    let mut s = String::new();
    push_decimal(&mut s, n);
    s.append(" mod(s)");
    assert(Seq::<char>::empty() + decimal(n as nat) =~= decimal(n as nat));
    s
}


/// The authors line names the authors: `by ` and the authors, cut to the width, whenever
/// there are any; `by unknown` stands only for an empty authors text.  When the width leaves
/// room, the line is exactly `by ` and the authors.
pub proof fn lemma_authors_line(authors: Seq<char>, width: nat)
    ensures
        authors.len() > 0 ==> truncated(authors_text(authors), width) == truncated(
            "by "@ + authors,
            width,
        ),
        authors.len() > 0 && authors.len() + 3 <= width ==> truncated(authors_text(authors), width)
            == "by "@ + authors,
        authors.len() == 0 ==> truncated(authors_text(authors), width) == truncated(
            "by unknown"@,
            width,
        ),
{
    reveal_strlit("by ");
}

/// The value of a string of decimal digits, read most significant first.
pub open spec fn digits_value(s: Seq<char>) -> int
    decreases s.len(),
{
    if s.len() == 0 {
        0
    } else {
        digits_value(s.drop_last()) * 10 + ((s.last() as u32) - 48)
    }
}

/// The numeral of `n` reads back as `n`: it is made of the digits `0` to `9`, has no leading
/// zero, and its digits' value is `n`.
pub proof fn lemma_decimal_value(n: nat)
    ensures
        digits_value(decimal(n)) == n,
        decimal(n).len() > 0,
        forall|k: int| 0 <= k < decimal(n).len() ==> '0' <= #[trigger] decimal(n)[k] <= '9',
        decimal(n)[0] == '0' ==> n == 0,
    decreases n,
{
    assert(('0' as u32) == 48 && ('1' as u32) == 49 && ('2' as u32) == 50 && ('3' as u32) == 51
        && ('4' as u32) == 52 && ('5' as u32) == 53 && ('6' as u32) == 54 && ('7' as u32) == 55
        && ('8' as u32) == 56 && ('9' as u32) == 57);
    let d = digits();
    assert forall|k: int| 0 <= k < 10 implies #[trigger] (d[k] as u32) == 48 + k && '0' <= d[k]
        <= '9' by {
    }
    if n < 10 {
        let s = decimal(n);
        assert(s.drop_last() =~= Seq::<char>::empty());
        assert(s.last() == d[n as int]);
        assert((d[n as int] as u32) == 48 + n);
        assert(digits_value(s) == digits_value(s.drop_last()) * 10 + ((s.last() as u32) - 48));
    } else {
        lemma_decimal_value(n / 10);
        let s = decimal(n);
        assert(s.drop_last() =~= decimal(n / 10));
        assert(s.last() == d[(n % 10) as int]);
        assert((d[(n % 10) as int] as u32) == 48 + n % 10);
        assert(digits_value(s) == digits_value(s.drop_last()) * 10 + ((s.last() as u32) - 48));
        assert(n == (n / 10) * 10 + n % 10) by (nonlinear_arith);
        assert(s[0] == decimal(n / 10)[0]);
        assert forall|k: int| 0 <= k < s.len() implies '0' <= #[trigger] s[k] <= '9' by {
            if k < s.len() - 1 {
                assert(s[k] == decimal(n / 10)[k]);
            }
        }
    }
}


/// A `.yog` mod is badged `[Yog]` and labelled `yog mod`; a platform mod is badged `[MC]` and
/// labelled `platform mod`; the footer names the id, then the label in brackets.
pub proof fn lemma_source_texts(source: ModSource, id: Seq<char>)
    ensures
        badge_of(source) == (if source == ModSource::Yog { "[Yog]"@ } else { "[MC]"@ }),
        source_label_of(source) == (if source == ModSource::Yog { "yog mod"@ } else {
            "platform mod"@
        }),
        footer_text(id, source) == "id: "@ + id + "  ("@ + (if source == ModSource::Yog {
            "yog mod"@
        } else {
            "platform mod"@
        }) + ")"@,
{
}

} // verus!
