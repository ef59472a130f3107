//! List item markers: the text or character drawn before a `display: list-item`.
use vstd::prelude::*;

use crate::utf8_text::same_text;

verus! {

/// A symbol of a `symbols()` counter style.
#[derive(Clone, Debug, PartialEq)]
pub enum Symbol {
    String(String),
    Ident(String),
}

/// The counter style of `list-style-type`.
#[derive(Clone, Debug, PartialEq)]
pub enum CounterStyle {
    /// `list-style-type: none`.
    NoneKeyword,
    /// A named counter style (`disc`, `decimal`, `lower-alpha`, ...).
    Name(String),
    /// A literal string marker.
    String(String),
    /// A `symbols()` counter style.
    Symbols(Vec<Symbol>),
}

/// The computed `list-style-type`.
#[derive(Clone, Debug, PartialEq)]
pub struct ListStyleType(pub CounterStyle);

/// The computed `list-style-position`.
#[derive(Clone, Copy, Debug, PartialEq, Eq)]
pub enum ListStylePosition {
    Inside,
    Outside,
}

impl ListStyleType {
    /// The initial value, `disc`.
    pub fn disc() -> (r: Self)
        ensures
            r.0 matches CounterStyle::Name(n) && n@ == "disc"@,
    {
        ListStyleType(CounterStyle::Name(String::from_str("disc")))
    }
}

/// A list item marker: a single character (drawn without a text layout) or a string.
#[derive(Debug, PartialEq, Clone)]
pub enum Marker {
    Char(char),
    String(String),
}

/// The content of a marker.
pub enum MarkerContent {
    Char(char),
    Text(Seq<char>),
}

impl Marker {
    /// The content of this marker.
    pub open spec fn content(&self) -> MarkerContent {
        match self {
            Marker::Char(c) => MarkerContent::Char(*c),
            Marker::String(s) => MarkerContent::Text(s@),
        }
    }
}

/// Where the marker of a list item goes.
#[derive(Clone, Copy, Debug, PartialEq, Eq)]
pub enum ListItemLayoutPosition {
    Inside,
    Outside,
}

/// The marker and marker position of a list item.
#[derive(Clone, Debug, PartialEq)]
pub struct ListItemLayout {
    pub marker: Marker,
    pub position: ListItemLayoutPosition,
}

/// The lowercase ASCII letter with the given alphabet index.
pub open spec fn alpha_letter(i: int) -> char {
    ((97 + i) as u8) as char
}

/// The alphabetic marker for `index` (0 is `a`, 25 is `z`, 26 is `aa`, ...), as the
/// recursive construction computes it: the last letter comes from `index % 26` and the
/// rest from `(index - index % 26) / 26 - 1`, computed as a signed 64-bit value (so
/// nothing is prepended once that value would be negative).
pub open spec fn alpha_marker(index: nat) -> Seq<char>
    decreases index,
{
    let rem = index % 26;
    let q = index - rem;
    let prefix = if q <= i64::MAX && q >= 26 {
        alpha_marker((q / 26 - 1) as nat)
    } else {
        Seq::empty()
    };
    prefix.push(alpha_letter(rem as int))
}

/// The decimal digit character for `d`.
pub open spec fn digit_char(d: int) -> char {
    ((48 + d) as u8) as char
}

/// The decimal representation of `n`.
pub open spec fn decimal(n: nat) -> Seq<char>
    decreases n,
{
    if n < 10 {
        seq![digit_char(n as int)]
    } else {
        decimal(n / 10).push(digit_char((n % 10) as int))
    }
}

/// ASCII uppercase of a character (others unchanged).
pub open spec fn ascii_upper(c: char) -> char {
    if 'a' <= c && c <= 'z' {
        ((c as u32) - 32) as char
    } else {
        c
    }
}

/// The bullet drawn for `disc` and unknown symbol lists.
pub open spec fn bullet() -> char {
    '\u{2022}'
}

/// The marker suffix after alphabetic and decimal counters.
pub open spec fn marker_suffix() -> Seq<char> {
    seq!['.', ' ']
}

/// The text of a symbol.
pub open spec fn symbol_text(s: Symbol) -> Seq<char> {
    match s {
        Symbol::String(t) => t@,
        Symbol::Ident(t) => t@,
    }
}

/// The marker drawn for the `index`-th (0-based) item of a list with style `style`.
pub open spec fn marker_content(style: ListStyleType, index: nat) -> Option<MarkerContent> {
    match style.0 {
        CounterStyle::NoneKeyword => None,
        CounterStyle::Name(name) => Some(
            if name@ == "lower-alpha"@ {
                MarkerContent::Text(alpha_marker(index) + marker_suffix())
            } else if name@ == "upper-alpha"@ {
                MarkerContent::Text(alpha_marker(index).map_values(|c: char| ascii_upper(c)) + marker_suffix())
            } else if name@ == "decimal"@ {
                MarkerContent::Text(decimal(index + 1) + marker_suffix())
            } else if name@ == "disc"@ {
                MarkerContent::Char(bullet())
            } else if name@ == "circle"@ {
                MarkerContent::Char('\u{25E6}')
            } else if name@ == "square"@ {
                MarkerContent::Char('\u{25AA}')
            } else if name@ == "disclosure-open"@ {
                MarkerContent::Char('\u{25BE}')
            } else if name@ == "disclosure-closed"@ {
                MarkerContent::Char('\u{25B8}')
            } else {
                MarkerContent::Char('\u{25A1}')
            },
        ),
        CounterStyle::String(s) => Some(MarkerContent::Text(s@)),
        CounterStyle::Symbols(symbols) => Some(
            if symbols.len() == 0 {
                MarkerContent::Char(bullet())
            } else {
                let idx = if symbols.len() > 1 {
                    index % (symbols.len() as nat)
                } else {
                    0
                };
                MarkerContent::Text(symbol_text(symbols@[idx as int]))
            },
        ),
    }
}

/// Whether `style` is the named style `name`.
pub open spec fn is_named(style: ListStyleType, name: Seq<char>) -> bool {
    style.0 matches CounterStyle::Name(n) && n@ == name
}

/// Prepends the alphabetic marker for `index` to `str`.
pub fn build_alpha_marker(index: usize, str: &mut String)
    ensures
        final(str)@ == alpha_marker(index as nat) + old(str)@,
    decreases index,
{
    let rem = index % 26;
    let letter = ((97 + rem) as u8) as char;
    let mut prefixed = String::new();
    prefixed.push(letter);
    prefixed.append(str.as_str());
    *str = prefixed;
    let q = (index - rem) as u64;
    if q <= 9223372036854775807u64 {
        let rest = q / 26;
        if rest >= 1 {
            build_alpha_marker((rest - 1) as usize, str);
        }
    }
    proof {
        let q = index - rem;
        let prefix = if q <= i64::MAX && q >= 26 {
            alpha_marker((q / 26 - 1) as nat)
        } else {
            Seq::empty()
        };
        assert(alpha_marker(index as nat) == prefix.push(alpha_letter(rem as int)));
        assert(final(str)@ =~= prefix.push(alpha_letter(rem as int)) + old(str)@);
    }
}

/// Appends the decimal representation of `n` to `s`.
pub fn push_decimal(n: usize, s: &mut String)
    ensures
        final(s)@ == old(s)@ + decimal(n as nat),
    decreases n,
{
    if n >= 10 {
        push_decimal(n / 10, s);
    }
    s.push(((48 + n % 10) as u8) as char);
    proof {
        if n < 10 {
            assert(final(s)@ =~= old(s)@ + decimal(n as nat));
        } else {
            assert(final(s)@ =~= old(s)@ + decimal(n as nat));
        }
    }
}

/// ASCII-uppercases `s`.
fn to_ascii_uppercase(s: &str) -> (r: String)
    ensures
        r@ == s@.map_values(|c: char| ascii_upper(c)),
{
    let n = s.unicode_len();
    let mut out = String::new();
    let mut i: usize = 0;
    while i < n
        invariant
            n == s@.len(),
            i <= n,
            out@ =~= s@.take(i as int).map_values(|c: char| ascii_upper(c)),
        decreases n - i,
    {
        let c = s.get_char(i);
        let u = if 'a' <= c && c <= 'z' {
            ((c as u32) - 32) as u8 as char
        } else {
            c
        };
        out.push(u);
        assert(s@.take(i + 1) =~= s@.take(i as int).push(c));
        i = i + 1;
    }
    assert(s@.take(n as int) =~= s@);
    out
}

/// Appends the marker suffix `". "` to `s`.
fn push_suffix(s: &mut String)
    ensures
        final(s)@ == old(s)@ + marker_suffix(),
{
    s.push('.');
    s.push(' ');
    assert(final(s)@ =~= old(s)@ + marker_suffix());
}

/// The text of a symbol.
fn symbol_string(s: &Symbol) -> (r: String)
    ensures
        r@ == symbol_text(*s),
{
    match s {
        Symbol::String(t) => String::from_str(t.as_str()),
        Symbol::Ident(t) => String::from_str(t.as_str()),
    }
}

/// The marker drawn for the `index`-th (0-based) item of a list with style `list_style_type`.
pub fn marker_for_style(list_style_type: ListStyleType, index: usize) -> (r: Option<Marker>)
    requires
        is_named(list_style_type, "decimal"@) ==> index < usize::MAX,
    ensures
        match r {
            Some(m) => marker_content(list_style_type, index as nat) == Some(m.content()),
            None => marker_content(list_style_type, index as nat).is_none(),
        },
{
    match &list_style_type.0 {
        CounterStyle::NoneKeyword => None,
        CounterStyle::Name(name) => {
            let name = name.as_str();
            if same_text(name, "lower-alpha") {
                let mut marker = String::new();
                build_alpha_marker(index, &mut marker);
                push_suffix(&mut marker);
                Some(Marker::String(marker))
            } else if same_text(name, "upper-alpha") {
                let mut marker = String::new();
                build_alpha_marker(index, &mut marker);
                let mut upper = to_ascii_uppercase(marker.as_str());
                push_suffix(&mut upper);
                Some(Marker::String(upper))
            } else if same_text(name, "decimal") {
                let mut marker = String::new();
                push_decimal(index + 1, &mut marker);
                push_suffix(&mut marker);
                Some(Marker::String(marker))
            } else if same_text(name, "disc") {
                Some(Marker::Char('\u{2022}'))
            } else if same_text(name, "circle") {
                Some(Marker::Char('\u{25E6}'))
            } else if same_text(name, "square") {
                Some(Marker::Char('\u{25AA}'))
            } else if same_text(name, "disclosure-open") {
                Some(Marker::Char('\u{25BE}'))
            } else if same_text(name, "disclosure-closed") {
                Some(Marker::Char('\u{25B8}'))
            } else {
                Some(Marker::Char('\u{25A1}'))
            }
        },
        CounterStyle::String(s) => Some(Marker::String(String::from_str(s.as_str()))),
        CounterStyle::Symbols(symbols) => {
            let len = symbols.len();
            if len == 0 {
                Some(Marker::Char('\u{2022}'))
            } else {
                let idx = if len > 1 { index % len } else { 0 };
                Some(Marker::String(symbol_string(&symbols[idx])))
            }
        },
    }
}

/// The counter style name of a named list style.
pub fn counter_style_name(list_style_type: &ListStyleType) -> (r: Option<&String>)
    ensures
        match list_style_type.0 {
            CounterStyle::Name(n) => r == Some(&n),
            _ => r.is_none(),
        },
{
    match &list_style_type.0 {
        CounterStyle::Name(name) => Some(name),
        _ => None,
    }
}

/// Whether a style draws a bullet (`disc`, `circle`, `square`, `disclosure-open` or
/// `disclosure-closed`).
pub open spec fn is_bullet_style(style: ListStyleType) -> bool {
    is_named(style, "disc"@) || is_named(style, "circle"@) || is_named(style, "square"@)
        || is_named(style, "disclosure-open"@) || is_named(style, "disclosure-closed"@)
}

impl ListStyleType {
    /// Whether this style draws a bullet.
    pub fn is_bullet(&self) -> (r: bool)
        ensures
            r == is_bullet_style(*self),
    {
        match &self.0 {
            CounterStyle::Name(name) => {
                let n = name.as_str();
                same_text(n, "disc") || same_text(n, "circle") || same_text(n, "square")
                    || same_text(n, "disclosure-open") || same_text(n, "disclosure-closed")
            },
            _ => false,
        }
    }
}

/// The font family list to draw bullets with: the bundled bullet font, then fallbacks.
pub fn font_for_bullet_style(list_style_type: &ListStyleType) -> (r: Option<String>)
    ensures
        r.is_some() == is_bullet_style(*list_style_type),
        r matches Some(f) ==> f@ == "Bullet, monospace, sans-serif"@,
{
    if list_style_type.is_bullet() {
        return Some(String::from_str("Bullet, monospace, sans-serif"));
    }
    None
}

/// Whether two list styles are the same style (their texts equal).
pub open spec fn same_list_style(a: ListStyleType, b: ListStyleType) -> bool {
    match (a.0, b.0) {
        (CounterStyle::NoneKeyword, CounterStyle::NoneKeyword) => true,
        (CounterStyle::Name(x), CounterStyle::Name(y)) => x@ == y@,
        (CounterStyle::String(x), CounterStyle::String(y)) => x@ == y@,
        (CounterStyle::Symbols(x), CounterStyle::Symbols(y)) => x@.len() == y@.len() && forall|i: int|
            0 <= i < x@.len() ==> symbol_text(#[trigger] x@[i]) == symbol_text(y@[i]),
        _ => false,
    }
}

/// The same style draws the same markers.
pub proof fn lemma_same_list_style_markers(a: ListStyleType, b: ListStyleType, index: nat)
    requires
        same_list_style(a, b),
    ensures
        marker_content(a, index) == marker_content(b, index),
        is_named(a, "decimal"@) == is_named(b, "decimal"@),
{
    match (a.0, b.0) {
        (CounterStyle::Symbols(x), CounterStyle::Symbols(y)) => {
            if x@.len() > 1 {
                let idx = index % (x@.len() as nat);
                assert(symbol_text(x@[idx as int]) == symbol_text(y@[idx as int]));
            } else if x@.len() == 1 {
                assert(symbol_text(x@[0]) == symbol_text(y@[0]));
            }
        },
        _ => {},
    }
}

impl ListStyleType {
    /// A copy of this style.
    pub fn duplicate(&self) -> (r: Self)
        ensures
            same_list_style(r, *self),
    {
        match &self.0 {
            CounterStyle::NoneKeyword => ListStyleType(CounterStyle::NoneKeyword),
            CounterStyle::Name(n) => ListStyleType(CounterStyle::Name(String::from_str(n.as_str()))),
            CounterStyle::String(t) => ListStyleType(CounterStyle::String(String::from_str(t.as_str()))),
            CounterStyle::Symbols(syms) => {
                let mut out: Vec<Symbol> = Vec::new();
                let mut k: usize = 0;
                while k < syms.len()
                    invariant
                        k <= syms@.len(),
                        out@.len() == k,
                        forall|i: int| 0 <= i < k ==> symbol_text(#[trigger] out@[i]) == symbol_text(syms@[i]),
                    decreases syms@.len() - k,
                {
                    let s = match &syms[k] {
                        Symbol::String(t) => Symbol::String(String::from_str(t.as_str())),
                        Symbol::Ident(t) => Symbol::Ident(String::from_str(t.as_str())),
                    };
                    out.push(s);
                    k = k + 1;
                }
                ListStyleType(CounterStyle::Symbols(out))
            },
        }
    }
}

/// Alphabetic markers count in bijective base 26: after `z` (25) comes `aa` (26),
/// and after `az` (51) comes `ba` (52).
pub proof fn law_alpha_marker_counts_in_base_26(index: nat)
    requires
        index <= i64::MAX,
    ensures
        index < 26 ==> alpha_marker(index) == seq![alpha_letter(index as int)],
        index >= 26 ==> alpha_marker(index) == alpha_marker(((index / 26) - 1) as nat).push(
            alpha_letter((index % 26) as int),
        ),
        alpha_marker(index).len() >= 1,
{
    let rem = index % 26;
    let q = index - rem;
    assert(q / 26 == index / 26) by (nonlinear_arith)
        requires
            rem == index % 26,
            q == index - rem,
    ;
    if index < 26 {
        assert(alpha_marker(index) =~= seq![alpha_letter(index as int)]);
    }
}

} // verus!
