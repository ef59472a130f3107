//! The nodes of the DOM and their data.
use vstd::prelude::*;

use crate::flags::NodeFlags;
use crate::list_marker::{ListItemLayout, ListStylePosition, ListStyleType};
use crate::utf8_text::same_text;

verus! {

/// A qualified name: namespace prefix, namespace URL and local name.
#[derive(Debug)]
pub struct QualName {
    pub prefix: Option<String>,
    pub ns: String,
    pub local: String,
}

/// Whether two qualified names are equal.
pub open spec fn same_qual_name(a: QualName, b: QualName) -> bool {
    &&& match (a.prefix, b.prefix) {
        (Some(p), Some(q)) => p@ == q@,
        (None, None) => true,
        _ => false,
    }
    &&& a.ns@ == b.ns@
    &&& a.local@ == b.local@
}

impl QualName {
    /// A qualified name in namespace `ns` (no prefix).
    pub fn new(ns: &str, local: &str) -> (r: Self)
        ensures
            r.prefix.is_none(),
            r.ns@ == ns@,
            r.local@ == local@,
    {
        QualName { prefix: None, ns: String::from_str(ns), local: String::from_str(local) }
    }

    /// A copy of this name.
    pub fn duplicate(&self) -> (r: Self)
        ensures
            same_qual_name(r, *self),
            r.local@ == self.local@,
    {
        let prefix = match &self.prefix {
            Some(p) => Some(String::from_str(p.as_str())),
            None => None,
        };
        QualName {
            prefix,
            ns: String::from_str(self.ns.as_str()),
            local: String::from_str(self.local.as_str()),
        }
    }

    /// Whether this name equals `other`.
    pub fn same_as(&self, other: &QualName) -> (r: bool)
        ensures
            r == same_qual_name(*self, *other),
    {
        let prefix_eq = match (&self.prefix, &other.prefix) {
            (Some(p), Some(q)) => *p == *q,
            (None, None) => true,
            _ => false,
        };
        prefix_eq && self.ns == other.ns && self.local == other.local
    }
}

/// A tag attribute, e.g. `class="test"` in `<div class="test" ...>`.
#[derive(Debug)]
pub struct Attribute {
    /// The name of the attribute (e.g. the `class` in `<div class="test">`).
    pub name: QualName,
    /// The value of the attribute (e.g. the `"test"` in `<div class="test">`).
    pub value: String,
}

impl Attribute {
    /// An attribute with no namespace.
    pub fn new(local: &str, value: &str) -> (r: Self)
        ensures
            r.name.prefix.is_none(),
            r.name.ns@ == Seq::<char>::empty(),
            r.name.local@ == local@,
            r.value@ == value@,
    {
        proof {
            reveal_strlit("");
        }
        Attribute { name: QualName::new("", local), value: String::from_str(value) }
    }
}

/// The index of the first attribute of `attrs` named `name`, if any.
pub open spec fn find_attr(attrs: Seq<Attribute>, name: QualName) -> Option<int> {
    if exists|i: int| 0 <= i < attrs.len() && same_qual_name(#[trigger] attrs[i].name, name) {
        Some(
            choose|i: int|
                0 <= i < attrs.len() && same_qual_name(#[trigger] attrs[i].name, name) && forall|j: int|
                    0 <= j < i ==> !same_qual_name(#[trigger] attrs[j].name, name),
        )
    } else {
        None
    }
}

/// The index of the first attribute of `attrs` with local name `local`, if any.
pub open spec fn find_local(attrs: Seq<Attribute>, local: Seq<char>) -> Option<int> {
    if exists|i: int| 0 <= i < attrs.len() && (#[trigger] attrs[i].name).local@ == local {
        Some(
            choose|i: int|
                0 <= i < attrs.len() && (#[trigger] attrs[i].name).local@ == local && forall|j: int|
                    0 <= j < i ==> (#[trigger] attrs[j].name).local@ != local,
        )
    } else {
        None
    }
}

/// The value of the first attribute with local name `local`, if any.
pub open spec fn attr_value(attrs: Seq<Attribute>, local: Seq<char>) -> Option<Seq<char>> {
    match find_local(attrs, local) {
        Some(i) => Some(attrs[i].value@),
        None => None,
    }
}

/// An attribute of that name with none before it is the one `find_attr` gives.
pub proof fn lemma_first_index(attrs: Seq<Attribute>, name: QualName, k: int)
    requires
        0 <= k < attrs.len(),
        same_qual_name(attrs[k].name, name),
        forall|j: int| 0 <= j < k ==> !same_qual_name(#[trigger] attrs[j].name, name),
    ensures
        find_attr(attrs, name) == Some(k),
{
    let i = choose|i: int|
        0 <= i < attrs.len() && same_qual_name(#[trigger] attrs[i].name, name) && forall|j: int|
            0 <= j < i ==> !same_qual_name(#[trigger] attrs[j].name, name);
    assert(exists|i: int|
        0 <= i < attrs.len() && same_qual_name(#[trigger] attrs[i].name, name) && forall|j: int|
            0 <= j < i ==> !same_qual_name(#[trigger] attrs[j].name, name)) by {
        assert(same_qual_name(attrs[k].name, name));
    }
    if i < k {
        assert(!same_qual_name(attrs[i].name, name));
    }
    if k < i {
        assert(!same_qual_name(attrs[k].name, name));
    }
}

proof fn lemma_first_local(attrs: Seq<Attribute>, local: Seq<char>, k: int)
    requires
        0 <= k < attrs.len(),
        attrs[k].name.local@ == local,
        forall|j: int| 0 <= j < k ==> (#[trigger] attrs[j].name).local@ != local,
    ensures
        find_local(attrs, local) == Some(k),
{
    let i = choose|i: int|
        0 <= i < attrs.len() && (#[trigger] attrs[i].name).local@ == local && forall|j: int|
            0 <= j < i ==> (#[trigger] attrs[j].name).local@ != local;
    assert(exists|i: int|
        0 <= i < attrs.len() && (#[trigger] attrs[i].name).local@ == local && forall|j: int|
            0 <= j < i ==> (#[trigger] attrs[j].name).local@ != local) by {
        assert(attrs[k].name.local@ == local);
    }
    if i < k {
        assert(attrs[i].name.local@ != local);
    }
    if k < i {
        assert(attrs[k].name.local@ != local);
    }
}

/// Whether `new` is `old` with the attribute named `name` set to `value`: the first one
/// of that name takes the value in place, or, when there is none, a new attribute of that
/// name is added at the end.
pub open spec fn attrs_after_set(
    old: Seq<Attribute>,
    new: Seq<Attribute>,
    name: QualName,
    value: Seq<char>,
) -> bool {
    match find_attr(old, name) {
        Some(i) => {
            &&& new.len() == old.len()
            &&& new[i].value@ == value
            &&& new[i].name == old[i].name
            &&& forall|j: int| 0 <= j < old.len() && j != i ==> new[j] == old[j]
        },
        None => {
            &&& new.len() == old.len() + 1
            &&& forall|j: int| 0 <= j < old.len() ==> new[j] == old[j]
            &&& same_qual_name(new.last().name, name)
            &&& new.last().value@ == value
        },
    }
}

proof fn lemma_first_exists(attrs: Seq<Attribute>, name: QualName, k: int)
    requires
        0 <= k < attrs.len(),
        same_qual_name(attrs[k].name, name),
    ensures
        exists|i: int|
            0 <= i < attrs.len() && same_qual_name(#[trigger] attrs[i].name, name) && forall|j: int|
                0 <= j < i ==> !same_qual_name(#[trigger] attrs[j].name, name),
    decreases k,
{
    if exists|j: int| 0 <= j < k && same_qual_name(#[trigger] attrs[j].name, name) {
        let j = choose|j: int| 0 <= j < k && same_qual_name(#[trigger] attrs[j].name, name);
        lemma_first_exists(attrs, name, j);
    } else {
        assert(forall|j: int| 0 <= j < k ==> !same_qual_name(#[trigger] attrs[j].name, name));
    }
}

/// The index `find_attr` gives holds the first attribute of that name.
pub proof fn lemma_find_attr(attrs: Seq<Attribute>, name: QualName)
    ensures
        find_attr(attrs, name) matches Some(i) ==> 0 <= i < attrs.len() && same_qual_name(attrs[i].name, name)
            && forall|j: int| 0 <= j < i ==> !same_qual_name(#[trigger] attrs[j].name, name),
        find_attr(attrs, name) is None ==> forall|j: int| 0 <= j < attrs.len() ==> !same_qual_name(#[trigger] attrs[j].name, name),
{
    if exists|i: int| 0 <= i < attrs.len() && same_qual_name(#[trigger] attrs[i].name, name) {
        let k = choose|i: int| 0 <= i < attrs.len() && same_qual_name(#[trigger] attrs[i].name, name);
        lemma_first_exists(attrs, name, k);
    }
}

/// After setting attribute `name` to `value`, the first attribute of that name holds it.
#[verifier::spinoff_prover]
pub proof fn lemma_attrs_after_set_reads_back(old: Seq<Attribute>, new: Seq<Attribute>, name: QualName, value: Seq<char>)
    requires
        attrs_after_set(old, new, name, value),
    ensures
        find_attr(new, name) matches Some(i) && new[i].value@ == value,
{
    lemma_find_attr(old, name);
    match find_attr(old, name) {
        Some(i) => {
            assert forall|k: int| 0 <= k < i implies !same_qual_name(#[trigger] new[k].name, name) by {
                assert(new[k] == old[k]);
            }
            lemma_first_index(new, name, i);
        },
        None => {
            let last = old.len() as int;
            assert forall|k: int| 0 <= k < last implies !same_qual_name(#[trigger] new[k].name, name) by {
                assert(new[k] == old[k]);
            }
            lemma_first_index(new, name, last);
        },
    }
}

/// The attributes of an element, in order.
#[derive(Debug)]
pub struct Attributes {
    inner: Vec<Attribute>,
}

impl Attributes {
    /// The attributes, in order.
    pub closed spec fn items(&self) -> Seq<Attribute> {
        self.inner@
    }

    /// Attributes holding `inner`, in that order.
    pub fn new(inner: Vec<Attribute>) -> (r: Self)
        ensures
            r.items() == inner@,
    {
        Attributes { inner }
    }

    /// The attributes, in order.
    pub fn as_slice(&self) -> (r: &[Attribute])
        ensures
            r@ == self.items(),
    {
        self.inner.as_slice()
    }

    /// The number of attributes.
    pub fn len(&self) -> (r: usize)
        ensures
            r == self.items().len(),
    {
        self.inner.len()
    }

    /// The index of the first attribute named `name`.
    pub fn position(&self, name: &QualName) -> (r: Option<usize>)
        ensures
            match r {
                Some(i) => i < self.items().len() && find_attr(self.items(), *name) == Some(i as int),
                None => find_attr(self.items(), *name).is_none(),
            },
    {
        let n = self.inner.len();
        let mut i: usize = 0;
        while i < n
            invariant
                n == self.inner@.len(),
                i <= n,
                forall|j: int| 0 <= j < i ==> !same_qual_name(#[trigger] self.inner@[j].name, *name),
            decreases n - i,
        {
            if self.inner[i].name.same_as(name) {
                proof {
                    lemma_first_index(self.inner@, *name, i as int);
                }
                return Some(i);
            }
            i = i + 1;
        }
        None
    }

    /// The value of the first attribute with local name `local`.
    pub fn get_local(&self, local: &str) -> (r: Option<&String>)
        ensures
            match r {
                Some(v) => attr_value(self.items(), local@) == Some(v@),
                None => attr_value(self.items(), local@).is_none(),
            },
    {
        let n = self.inner.len();
        let mut i: usize = 0;
        while i < n
            invariant
                n == self.inner@.len(),
                i <= n,
                forall|j: int| 0 <= j < i ==> (#[trigger] self.inner@[j].name).local@ != local@,
            decreases n - i,
        {
            if same_text(self.inner[i].name.local.as_str(), local) {
                proof {
                    lemma_first_local(self.inner@, local@, i as int);
                }
                return Some(&self.inner[i].value);
            }
            i = i + 1;
        }
        None
    }

    /// Sets the value of the attribute named `name`, adding it at the end if absent.
    pub fn set(&mut self, name: QualName, value: &str)
        ensures
            attrs_after_set(old(self).items(), final(self).items(), name, value@),
    {
        match self.position(&name) {
            Some(i) => {
                self.inner[i].value = String::from_str(value);
            },
            None => {
                let dup = name.duplicate();
                self.inner.push(Attribute { name: dup, value: String::from_str(value) });
            },
        }
    }

    /// Adds `attr` at the end, whether or not an attribute of that name is present.
    pub fn push(&mut self, attr: Attribute)
        ensures
            final(self).items() == old(self).items().push(attr),
    {
        self.inner.push(attr);
    }

    /// Removes the first attribute named `name`, returning it.
    pub fn remove(&mut self, name: &QualName) -> (r: Option<Attribute>)
        ensures
            match find_attr(old(self).items(), *name) {
                Some(i) => r == Some(old(self).items()[i]) && final(self).items() == old(
                    self,
                ).items().remove(i),
                None => r.is_none() && final(self).items() == old(self).items(),
            },
    {
        match self.position(name) {
            Some(i) => Some(self.inner.remove(i)),
            None => None,
        }
    }
}

/// The interaction state of an element.
#[derive(Clone, Copy, Debug, PartialEq, Eq, Structural)]
pub struct ElementState {
    pub hover: bool,
    pub focus: bool,
    pub focus_ring: bool,
    pub active: bool,
    pub enabled: bool,
    pub disabled: bool,
}

/// No state.
pub open spec fn empty_state() -> ElementState {
    ElementState {
        hover: false,
        focus: false,
        focus_ring: false,
        active: false,
        enabled: false,
        disabled: false,
    }
}

impl ElementState {
    /// No state.
    pub fn empty() -> (r: Self)
        ensures
            r == empty_state(),
    {
        ElementState {
            hover: false,
            focus: false,
            focus_ring: false,
            active: false,
            enabled: false,
            disabled: false,
        }
    }
}

/// The computed `position`.
#[derive(Clone, Copy, Debug, PartialEq, Eq, Structural)]
pub enum Position {
    Static,
    Relative,
    Absolute,
    Fixed,
    Sticky,
}

/// The computed `float`.
#[derive(Clone, Copy, Debug, PartialEq, Eq, Structural)]
pub enum Float {
    /// `float: none`.
    NoFloat,
    Left,
    Right,
    InlineStart,
    InlineEnd,
}

/// The outer display type of the computed `display`: how the box takes part in the
/// layout of its parent.
#[derive(Clone, Copy, Debug, PartialEq, Eq, Structural)]
pub enum DisplayOutside {
    /// `display: none`: no box at all.
    NoBox,
    Inline,
    Block,
    TableCaption,
    InternalTable,
}

/// The inner display type of the computed `display`: how the box lays out its children.
#[derive(Clone, Copy, Debug, PartialEq, Eq, Structural)]
pub enum DisplayInside {
    /// `display: none`.
    NoBox,
    Contents,
    Flow,
    FlowRoot,
    Flex,
    Grid,
    Table,
    TableRowGroup,
    TableColumn,
    TableColumnGroup,
    TableHeaderGroup,
    TableFooterGroup,
    TableRow,
    TableCell,
}

/// How inline layout treats white space: collapsed, or kept as written.
#[derive(Clone, Copy, Debug, PartialEq, Eq, Structural)]
pub enum WhiteSpaceCollapse {
    Collapse,
    Preserve,
}

/// The outer display that layout works with for a computed outer display type: table
/// captions and internal table boxes are laid out as blocks.
pub open spec fn outer_of(d: DisplayOutside) -> DisplayOuter {
    match d {
        DisplayOutside::NoBox => DisplayOuter::NoBox,
        DisplayOutside::Inline => DisplayOuter::Inline,
        _ => DisplayOuter::Block,
    }
}

impl DisplayOutside {
    /// The outer display that layout works with (see `outer_of`).
    pub fn outer(self) -> (r: DisplayOuter)
        ensures
            r == outer_of(self),
    {
        match self {
            DisplayOutside::NoBox => DisplayOuter::NoBox,
            DisplayOutside::Inline => DisplayOuter::Inline,
            DisplayOutside::Block => DisplayOuter::Block,
            DisplayOutside::TableCaption => DisplayOuter::Block,
            DisplayOutside::InternalTable => DisplayOuter::Block,
        }
    }
}

/// The style values of an element that the DOM logic reads.
#[derive(Clone, Debug, PartialEq)]
pub struct ElementStyle {
    /// Whether `display` is `list-item`.
    pub display_list_item: bool,
    pub list_style_type: ListStyleType,
    pub list_style_position: ListStylePosition,
    pub position: Position,
    pub float: Float,
    /// The outer display type of `display`.
    pub display_outside: DisplayOutside,
    /// The inner display type of `display`.
    pub display_inside: DisplayInside,
    /// How white space in the element's text is collapsed for inline layout.
    pub white_space_collapse: WhiteSpaceCollapse,
    /// The flex/grid `order`.
    pub order: i32,
}

/// The kinds of element-specific data.
#[derive(Copy, Clone, Debug, PartialEq, Eq)]
pub enum SpecialElementType {
    /// A document of its own, shown inside this element (an iframe's).
    SubDocument,
    Stylesheet,
    Image,
    /// A canvas, with its custom paint source.
    Canvas(CanvasData),
    TableRoot,
    TextInput,
    /// A checkbox, with whether it is checked.
    CheckboxInput(bool),
    FileInput,
    NoData,
}

/// The loading status of an image.
#[derive(Debug, Clone, Copy, PartialEq, Eq)]
pub enum Status {
    Loaded,
    Error,
    Loading,
}

/// A canvas element's custom paint source.
#[derive(Debug, Clone, Copy, PartialEq, Eq)]
pub struct CanvasData {
    pub custom_paint_source_id: u64,
}

/// The brush of a text run: the id of the node whose text it is.
#[derive(Debug, Clone, Copy, Default, PartialEq, Eq)]
pub struct TextBrush {
    /// The node id for the span.
    pub id: usize,
}

impl TextBrush {
    /// The brush of node `id`.
    pub fn from_id(id: usize) -> (r: Self)
        ensures
            r.id == id,
    {
        TextBrush { id }
    }
}

/// The files selected in a file input.
#[derive(Clone, Debug)]
pub struct FileData(pub Vec<String>);

/// Data of an element node.
#[derive(Debug)]
pub struct ElementData {
    /// The element's tag name, namespace and prefix.
    pub name: QualName,
    /// The element's id attribute (if it has one).
    pub id: Option<String>,
    /// The element's attributes.
    pub attrs: Attributes,
    /// Whether the element is focussable.
    pub is_focussable: bool,
    /// Hover, focus, active, enabled and disabled state.
    pub element_state: ElementState,
    /// The kind of element-specific data.
    pub special_data: SpecialElementType,
    /// The computed style values that the DOM reads, once styled.
    pub style: Option<ElementStyle>,
    /// Data associated with `display: list-item`.
    pub list_item_data: Option<ListItemLayout>,
}

/// Parses `"true"` / `"false"` as `str::parse::<bool>` does.
pub open spec fn parsed_bool(s: Seq<char>) -> Option<bool> {
    if s == "true"@ {
        Some(true)
    } else if s == "false"@ {
        Some(false)
    } else {
        None
    }
}

/// Whether `d` is one or more ASCII digits.
pub open spec fn is_decimal(d: Seq<char>) -> bool {
    d.len() > 0 && forall|i: int| 0 <= i < d.len() ==> '0' <= #[trigger] d[i] && d[i] <= '9'
}

/// The value of the decimal digits `d`.
pub open spec fn decimal_value(d: Seq<char>) -> int
    decreases d.len(),
{
    if d.len() == 0 {
        0
    } else {
        decimal_value(d.drop_last()) * 10 + (d.last() as int - '0' as int)
    }
}

/// Parses `s` as `str::parse::<usize>` does: an optional `+`, then one or more ASCII
/// digits whose value fits in a `usize`.
pub open spec fn parsed_usize(s: Seq<char>) -> Option<usize> {
    let d = if s.len() > 0 && s[0] == '+' {
        s.drop_first()
    } else {
        s
    };
    if is_decimal(d) && decimal_value(d) <= usize::MAX {
        Some(decimal_value(d) as usize)
    } else {
        None
    }
}

/// Parses `s` as `str::parse::<u64>` does: an optional `+`, then one or more ASCII
/// digits whose value fits in a `u64`.
pub open spec fn parsed_u64(s: Seq<char>) -> Option<u64> {
    let d = if s.len() > 0 && s[0] == '+' {
        s.drop_first()
    } else {
        s
    };
    if is_decimal(d) && decimal_value(d) <= u64::MAX {
        Some(decimal_value(d) as u64)
    } else {
        None
    }
}


/// Parses `s` as `str::parse::<i32>` does: an optional `+` or `-`, then one or more ASCII
/// digits whose signed value fits in an `i32`.
pub open spec fn parsed_i32(s: Seq<char>) -> Option<i32> {
    let signed = s.len() > 0 && (s[0] == '+' || s[0] == '-');
    let d = if signed {
        s.drop_first()
    } else {
        s
    };
    let v = if s.len() > 0 && s[0] == '-' {
        -decimal_value(d)
    } else {
        decimal_value(d)
    };
    if is_decimal(d) && i32::MIN <= v <= i32::MAX {
        Some(v as i32)
    } else {
        None
    }
}



/// The value of the decimal digits `d` when they are one or more digits whose value is at
/// most `limit`.
pub open spec fn decimal_within(d: Seq<char>, limit: int) -> Option<int> {
    if is_decimal(d) && decimal_value(d) <= limit {
        Some(decimal_value(d))
    } else {
        None
    }
}

/// The value of a prefix of digits one longer.
proof fn lemma_decimal_step(d: Seq<char>, k: int)
    requires
        0 <= k < d.len(),
    ensures
        decimal_value(d.take(k + 1)) == decimal_value(d.take(k)) * 10 + (d[k] as int - '0' as int),
{
    assert(d.take(k + 1).drop_last() =~= d.take(k));
}

/// The value of digits is at least that of any prefix of them.
proof fn lemma_decimal_prefix(d: Seq<char>, k: int)
    requires
        0 <= k <= d.len(),
        forall|i: int| 0 <= i < d.len() ==> '0' <= #[trigger] d[i] && d[i] <= '9',
    ensures
        decimal_value(d) >= decimal_value(d.take(k)),
        decimal_value(d.take(k)) >= 0,
    decreases d.len() - k,
{
    if k < d.len() {
        lemma_decimal_step(d, k);
        lemma_decimal_prefix(d, k + 1);
        lemma_decimal_nonneg(d.take(k));
        assert(d.take(d.len() as int) =~= d);
    } else {
        assert(d.take(k) =~= d);
        lemma_decimal_nonneg(d);
    }
}

/// Digits have a value of at least 0.
proof fn lemma_decimal_nonneg(d: Seq<char>)
    requires
        forall|i: int| 0 <= i < d.len() ==> '0' <= #[trigger] d[i] && d[i] <= '9',
    ensures
        decimal_value(d) >= 0,
    decreases d.len(),
{
    if d.len() > 0 {
        lemma_decimal_nonneg(d.drop_last());
    }
}

/// Reads the digits of `s` from `start` to the end (see `decimal_within`).
fn decimal_from(s: &str, start: usize, limit: u64) -> (r: Option<u64>)
    requires
        start <= s@.len(),
        limit >= 9,
    ensures
        match decimal_within(s@.subrange(start as int, s@.len() as int), limit as int) {
            Some(v) => r matches Some(x) && x as int == v,
            None => r.is_none(),
        },
{
    let ghost d = s@.subrange(start as int, s@.len() as int);
    let n = s.unicode_len();
    if start == n {
        return None;
    }
    let mut acc: u64 = 0;
    let mut over = false;
    let mut i: usize = start;
    while i < n
        invariant
            n == s@.len(),
            start < n,
            start <= i <= n,
            limit >= 9,
            d == s@.subrange(start as int, n as int),
            forall|j: int| 0 <= j < i - start ==> '0' <= #[trigger] d[j] && d[j] <= '9',
            !over ==> acc == decimal_value(d.take(i - start)) && acc <= limit,
            over ==> decimal_value(d.take(i - start)) > limit,
        decreases n - i,
    {
        let c = s.get_char(i);
        assert(d[i - start] == c);
        if !('0' <= c && c <= '9') {
            assert(!is_decimal(d));
            return None;
        }
        let digit = (c as u32 - 48) as u64;
        let ghost k = i - start;
        proof {
            lemma_decimal_step(d, k);
            assert(forall|j: int| 0 <= j < k ==> '0' <= #[trigger] d.take(k)[j] && d.take(k)[j] <= '9');
            lemma_decimal_nonneg(d.take(k));
        }
        if !over {
            if acc > (limit - digit) / 10 {
                over = true;
                assert(acc * 10 + digit > limit) by (nonlinear_arith)
                    requires
                        acc > (limit - digit) / 10,
                        digit <= 9,
                        limit >= 9,
                ;
            } else {
                assert(acc * 10 + digit <= limit) by (nonlinear_arith)
                    requires
                        acc <= (limit - digit) / 10,
                        digit <= 9,
                        limit >= 9,
                ;
                acc = acc * 10 + digit;
            }
        } else {
            assert(decimal_value(d.take(k)) * 10 + digit as int > limit) by (nonlinear_arith)
                requires
                    decimal_value(d.take(k)) > limit,
                    limit >= 9,
                    digit >= 0,
            ;
        }
        i = i + 1;
    }
    assert(d.take(n - start) =~= d);
    if over {
        None
    } else {
        Some(acc)
    }
}

/// Parses `s` as `str::parse::<u64>` does (see `parsed_u64`).
pub(crate) fn parse_u64(s: &str) -> (r: Option<u64>)
    ensures
        r == parsed_u64(s@),
{
    let start: usize = if s.unicode_len() > 0 && s.get_char(0) == '+' {
        1
    } else {
        0
    };
    proof {
        if start == 1 {
            assert(s@.drop_first() =~= s@.subrange(1, s@.len() as int));
        } else {
            assert(s@ =~= s@.subrange(0, s@.len() as int));
        }
    }
    decimal_from(s, start, u64::MAX)
}

/// Parses `s` as `str::parse::<usize>` does (see `parsed_usize`).
pub(crate) fn parse_usize(s: &str) -> (r: Option<usize>)
    ensures
        r == parsed_usize(s@),
{
    let start: usize = if s.unicode_len() > 0 && s.get_char(0) == '+' {
        1
    } else {
        0
    };
    proof {
        if start == 1 {
            assert(s@.drop_first() =~= s@.subrange(1, s@.len() as int));
        } else {
            assert(s@ =~= s@.subrange(0, s@.len() as int));
        }
    }
    match decimal_from(s, start, usize::MAX as u64) {
        Some(v) => {
            assert(v <= usize::MAX);
            Some(v as usize)
        },
        None => None,
    }
}

/// Parses `s` as `str::parse::<bool>` does (see `parsed_bool`).
pub(crate) fn parse_bool(s: &str) -> (r: Option<bool>)
    ensures
        r == parsed_bool(s@),
{
    if same_text(s, "true") {
        Some(true)
    } else if same_text(s, "false") {
        Some(false)
    } else {
        None
    }
}

/// Parses `s` as `str::parse::<i32>` does (see `parsed_i32`).
fn parse_i32(s: &str) -> (r: Option<i32>)
    ensures
        r == parsed_i32(s@),
{
    let n = s.unicode_len();
    let negative = n > 0 && s.get_char(0) == '-';
    let start: usize = if n > 0 && (s.get_char(0) == '+' || s.get_char(0) == '-') {
        1
    } else {
        0
    };
    proof {
        if start == 1 {
            assert(s@.drop_first() =~= s@.subrange(1, s@.len() as int));
        } else {
            assert(s@ =~= s@.subrange(0, s@.len() as int));
        }
    }
    let limit: u64 = if negative {
        2147483648
    } else {
        2147483647
    };
    match decimal_from(s, start, limit) {
        Some(v) => {
            assert(v <= limit);
            if negative {
                Some((0 - (v as i64)) as i32)
            } else {
                Some(v as i32)
            }
        },
        None => None,
    }
}

/// Whether the local name `local` is one of `button`, `input`, `select` and `textarea`.
pub open spec fn is_form_control(local: Seq<char>) -> bool {
    local == "button"@ || local == "input"@ || local == "select"@ || local == "textarea"@
}

/// Whether an element with local name `local` and attributes `attrs` is focussable:
/// not disabled, and with a non-negative `tabindex`, or without one, a link with an `href`
/// or one of the elements focussable by default.
pub open spec fn focussable(local: Seq<char>, attrs: Seq<Attribute>) -> bool {
    let disabled = match attr_value(attrs, "disabled"@) {
        Some(v) => parsed_bool(v) == Some(true),
        None => false,
    };
    let tabindex = match attr_value(attrs, "tabindex"@) {
        Some(v) => parsed_i32(v),
        None => None,
    };
    !disabled && match tabindex {
        Some(index) => index >= 0,
        None => if local == "a"@ || local == "area"@ {
            attr_value(attrs, "href"@).is_some()
        } else {
            local == "button"@ || local == "input"@ || local == "select"@ || local == "textarea"@
                || local == "frame"@ || local == "iframe"@
        },
    }
}

impl ElementData {
    /// An element named `name` with attributes `attrs`; its id and focussability follow the
    /// attributes, its state is empty.
    pub fn new(name: QualName, attrs: Vec<Attribute>) -> (r: Self)
        ensures
            r.name == name,
            r.attrs.items() == attrs@,
            r.is_focussable == focussable(name.local@, attrs@),
            match attr_value(attrs@, "id"@) {
                Some(v) => r.id matches Some(id) && id@ == v,
                None => r.id.is_none(),
            },
            r.element_state == empty_state(),
            r.special_data == SpecialElementType::NoData,
            r.style.is_none(),
            r.list_item_data.is_none(),
    {
        let attrs = Attributes::new(attrs);
        let id = match attrs.get_local("id") {
            Some(v) => Some(String::from_str(v.as_str())),
            None => None,
        };
        let mut data = ElementData {
            name,
            id,
            attrs,
            is_focussable: false,
            element_state: ElementState::empty(),
            special_data: SpecialElementType::NoData,
            style: None,
            list_item_data: None,
        };
        data.flush_is_focussable();
        data
    }

    /// The value of the attribute with local name `name`.
    pub fn attr(&self, name: &str) -> (r: Option<&String>)
        ensures
            match r {
                Some(v) => attr_value(self.attrs.items(), name@) == Some(v@),
                None => attr_value(self.attrs.items(), name@).is_none(),
            },
    {
        self.attrs.get_local(name)
    }

    /// Whether a checkbox is checked; `None` for elements that are no checkbox.
    pub fn checkbox_input_checked(&self) -> (r: Option<bool>)
        ensures
            r == match self.special_data {
                SpecialElementType::CheckboxInput(c) => Some(c),
                _ => None,
            },
    {
        match self.special_data {
            SpecialElementType::CheckboxInput(c) => Some(c),
            _ => None,
        }
    }

    /// Whether the element has an attribute with local name `name` (whatever its value).
    pub fn has_attr(&self, name: &str) -> (r: bool)
        ensures
            r == attr_value(self.attrs.items(), name@).is_some(),
    {
        self.attrs.get_local(name).is_some()
    }

    /// Whether the element can be disabled (`button`, `input`, `select`, `textarea`).
    pub fn can_be_disabled(&self) -> (r: bool)
        ensures
            r == is_form_control(self.name.local@),
    {
        let l = self.name.local.as_str();
        same_text(l, "button") || same_text(l, "input") || same_text(l, "select") || same_text(
            l,
            "textarea",
        )
    }

    /// Recomputes whether the element is focussable from its name and attributes.
    pub fn flush_is_focussable(&mut self)
        ensures
            final(self).is_focussable == focussable(old(self).name.local@, old(self).attrs.items()),
            final(self).name == old(self).name,
            final(self).id == old(self).id,
            final(self).attrs == old(self).attrs,
            final(self).element_state == old(self).element_state,
            final(self).special_data == old(self).special_data,
            final(self).style == old(self).style,
            final(self).list_item_data == old(self).list_item_data,
    {
        let disabled = match self.attrs.get_local("disabled") {
            Some(v) => match parse_bool(v.as_str()) {
                Some(b) => b,
                None => false,
            },
            None => false,
        };
        let tabindex = match self.attrs.get_local("tabindex") {
            Some(v) => parse_i32(v.as_str()),
            None => None,
        };
        let l = self.name.local.as_str();
        let focussable = !disabled && match tabindex {
            Some(index) => index >= 0,
            None => {
                if same_text(l, "a") || same_text(l, "area") {
                    self.attrs.get_local("href").is_some()
                } else {
                    same_text(l, "button") || same_text(l, "input") || same_text(l, "select")
                        || same_text(l, "textarea") || same_text(l, "frame") || same_text(
                        l,
                        "iframe",
                    )
                }
            },
        };
        self.is_focussable = focussable;
    }

    /// Whether the element is a button that submits its form: a `button` whose `type` is
    /// `submit`, or that has no `type`, `command` or `commandfor` attribute.
    pub fn is_submit_button(&self) -> (r: bool)
        ensures
            r == (self.name.local@ == "button"@ && (attr_value(self.attrs.items(), "type"@)
                == Some("submit"@) || (attr_value(self.attrs.items(), "type"@).is_none()
                && attr_value(self.attrs.items(), "command"@).is_none() && attr_value(
                self.attrs.items(),
                "commandfor"@,
            ).is_none()))),
    {
        if !same_text(self.name.local.as_str(), "button") {
            return false;
        }
        let type_attr = self.attrs.get_local("type");
        let is_submit = match type_attr {
            Some(t) => same_text(t.as_str(), "submit"),
            None => false,
        };
        let is_auto_submit = type_attr.is_none() && self.attrs.get_local("command").is_none()
            && self.attrs.get_local("commandfor").is_none();
        is_submit || is_auto_submit
    }
}

/// A text node's data.
#[derive(Debug)]
pub struct TextNodeData {
    /// The textual content of the text node.
    pub content: String,
}

impl TextNodeData {
    /// Text node data holding `content`.
    pub fn new(content: String) -> (r: Self)
        ensures
            r.content == content,
    {
        TextNodeData { content }
    }
}

/// The kinds of nodes in the DOM.
#[derive(Debug, Clone, Copy, PartialEq, Eq)]
pub enum NodeKind {
    Document,
    Element,
    AnonymousBlock,
    Text,
    Comment,
}

/// The outer display type of a node.
#[derive(Clone, Copy, Debug, PartialEq, Eq)]
pub enum DisplayOuter {
    Block,
    Inline,
    NoBox,
}

/// The data of a node, by kind.
#[derive(Debug)]
pub enum NodeData {
    /// The `Document` itself - the root node of a HTML document.
    Document,
    /// An element with attributes.
    Element(ElementData),
    /// An anonymous block box.
    AnonymousBlock(ElementData),
    /// A text node.
    Text(TextNodeData),
    /// A comment.
    Comment {
        /// The textual content of the comment.
        contents: String,
    },
}

impl NodeData {
    /// The kind of node this data belongs to.
    pub fn kind(&self) -> (r: NodeKind)
        ensures
            r == node_kind(*self),
    {
        match self {
            NodeData::Document => NodeKind::Document,
            NodeData::Element(_) => NodeKind::Element,
            NodeData::AnonymousBlock(_) => NodeKind::AnonymousBlock,
            NodeData::Text(_) => NodeKind::Text,
            NodeData::Comment { .. } => NodeKind::Comment,
        }
    }

    /// The element data of an element or anonymous block.
    pub fn downcast_element(&self) -> (r: Option<&ElementData>)
        ensures
            match *self {
                NodeData::Element(e) => r == Some(&e),
                NodeData::AnonymousBlock(e) => r == Some(&e),
                _ => r.is_none(),
            },
    {
        match self {
            NodeData::Element(data) => Some(data),
            NodeData::AnonymousBlock(data) => Some(data),
            _ => None,
        }
    }

    /// The value of the attribute with local name `name`, for elements.
    pub fn attr(&self, name: &str) -> (r: Option<&String>)
        ensures
            match element_of(*self) {
                Some(e) => match r {
                    Some(v) => attr_value(e.attrs.items(), name@) == Some(v@),
                    None => attr_value(e.attrs.items(), name@).is_none(),
                },
                None => r.is_none(),
            },
    {
        match self.downcast_element() {
            Some(e) => e.attr(name),
            None => None,
        }
    }

    /// Whether this is an element with local name `name`.
    pub fn is_element_with_tag_name(&self, name: &str) -> (r: bool)
        ensures
            r == (element_of(*self) matches Some(e) && e.name.local@ == name@),
    {
        match self.downcast_element() {
            Some(e) => same_text(e.name.local.as_str(), name),
            None => false,
        }
    }
}

/// The kind of node that `data` belongs to.
pub open spec fn node_kind(data: NodeData) -> NodeKind {
    match data {
        NodeData::Document => NodeKind::Document,
        NodeData::Element(_) => NodeKind::Element,
        NodeData::AnonymousBlock(_) => NodeKind::AnonymousBlock,
        NodeData::Text(_) => NodeKind::Text,
        NodeData::Comment { .. } => NodeKind::Comment,
    }
}

/// The element data of an element or anonymous block.
pub open spec fn element_of(data: NodeData) -> Option<ElementData> {
    match data {
        NodeData::Element(e) => Some(e),
        NodeData::AnonymousBlock(e) => Some(e),
        _ => None,
    }
}

/// A node of the DOM tree. Nodes refer to each other by id (their index in the document).
#[derive(Debug)]
pub struct Node {
    /// Our id.
    pub id: usize,
    /// Our parent's id.
    pub parent: Option<usize>,
    /// Our children, in order.
    pub children: Vec<usize>,
    /// Our parent in the layout hierarchy (which includes anonymous blocks).
    pub layout_parent: Option<usize>,
    pub flags: NodeFlags,
    /// Node type (element, text node, etc) specific data.
    pub data: NodeData,
    /// The shadow root attached to this node, if it is a shadow host.
    pub shadow_root: Option<usize>,
    /// For a light DOM child: the slot it is assigned to.
    pub assigned_slot: Option<usize>,
    /// For a `<slot>`: the light DOM nodes assigned to it, in order.
    pub assigned_nodes: Vec<usize>,
    /// Whether some descendant needs restyling.
    pub dirty_descendants: bool,
    /// The `::before` pseudo-element generated for this element, if any.
    pub before: Option<usize>,
    /// The `::after` pseudo-element generated for this element, if any.
    pub after: Option<usize>,
}

impl Node {
    /// The element data of an element or anonymous block.
    pub fn element_data(&self) -> (r: Option<&ElementData>)
        ensures
            match element_of(self.data) {
                Some(e) => r == Some(&e),
                None => r.is_none(),
            },
    {
        self.data.downcast_element()
    }

    /// The text data of a text node.
    pub fn text_data(&self) -> (r: Option<&TextNodeData>)
        ensures
            match self.data {
                NodeData::Text(t) => r == Some(&t),
                _ => r.is_none(),
            },
    {
        match &self.data {
            NodeData::Text(t) => Some(t),
            _ => None,
        }
    }

    /// Whether this is an element node.
    pub fn is_element(&self) -> (r: bool)
        ensures
            r == (self.data is Element),
    {
        matches!(self.data, NodeData::Element(_))
    }

    /// Whether this is an anonymous block.
    pub fn is_anonymous(&self) -> (r: bool)
        ensures
            r == (self.data is AnonymousBlock),
    {
        matches!(self.data, NodeData::AnonymousBlock(_))
    }

    /// Whether this is a text node.
    pub fn is_text_node(&self) -> (r: bool)
        ensures
            r == (self.data is Text),
    {
        matches!(self.data, NodeData::Text(_))
    }

    /// The value of the attribute with local name `name`, for elements.
    pub fn attr(&self, name: &str) -> (r: Option<&String>)
        ensures
            match element_of(self.data) {
                Some(e) => match r {
                    Some(v) => attr_value(e.attrs.items(), name@) == Some(v@),
                    None => attr_value(e.attrs.items(), name@).is_none(),
                },
                None => r.is_none(),
            },
    {
        self.data.attr(name)
    }

    /// Whether this is a `<slot>` element.
    pub fn is_slot(&self) -> (r: bool)
        ensures
            r == (self.data matches NodeData::Element(e) && e.name.local@ == "slot"@),
    {
        match &self.data {
            NodeData::Element(e) => same_text(e.name.local.as_str(), "slot"),
            _ => false,
        }
    }

    /// Whether this is a text node holding only ASCII white space.
    pub fn is_whitespace_node(&self) -> (r: bool)
        ensures
            r == (self.data matches NodeData::Text(t) && all_ascii_white_space(t.content@)),
    {
        match &self.data {
            NodeData::Text(t) => ascii_white_space_only(t.content.as_str()),
            _ => false,
        }
    }

    /// Whether the element can be focussed.
    pub fn is_focussable(&self) -> (r: bool)
        ensures
            r == (element_of(self.data) matches Some(e) && e.is_focussable),
    {
        match self.data.downcast_element() {
            Some(e) => e.is_focussable,
            None => false,
        }
    }

    /// Whether the element is hovered.
    pub fn is_hovered(&self) -> (r: bool)
        ensures
            r == (element_of(self.data) matches Some(e) && e.element_state.hover),
    {
        match self.data.downcast_element() {
            Some(e) => e.element_state.hover,
            None => false,
        }
    }

    /// Whether the element is focussed.
    pub fn is_focussed(&self) -> (r: bool)
        ensures
            r == (element_of(self.data) matches Some(e) && e.element_state.focus),
    {
        match self.data.downcast_element() {
            Some(e) => e.element_state.focus,
            None => false,
        }
    }

    /// Whether the element is active.
    pub fn is_active(&self) -> (r: bool)
        ensures
            r == (element_of(self.data) matches Some(e) && e.element_state.active),
    {
        match self.data.downcast_element() {
            Some(e) => e.element_state.active,
            None => false,
        }
    }

    /// The element state (empty for nodes other than elements).
    pub fn element_state(&self) -> (r: ElementState)
        ensures
            match element_of(self.data) {
                Some(e) => r == e.element_state,
                None => r == empty_state(),
            },
    {
        match self.data.downcast_element() {
            Some(e) => e.element_state,
            None => ElementState::empty(),
        }
    }

    /// Sets the hover state (elements only).
    pub fn hover(&mut self)
        ensures
            *final(self) == (Node { data: map_state(old(self).data, StateChange::Hover(true)), ..*old(self) }),
    {
        self.change_state(StateChange::Hover(true));
    }

    /// Clears the hover state (elements only).
    pub fn unhover(&mut self)
        ensures
            *final(self) == (Node { data: map_state(old(self).data, StateChange::Hover(false)), ..*old(self) }),
    {
        self.change_state(StateChange::Hover(false));
    }

    /// Sets the focus and focus-ring states (elements only).
    pub fn focus(&mut self)
        ensures
            *final(self) == (Node { data: map_state(old(self).data, StateChange::Focus(true)), ..*old(self) }),
    {
        self.change_state(StateChange::Focus(true));
    }

    /// Clears the focus and focus-ring states (elements only).
    pub fn blur(&mut self)
        ensures
            *final(self) == (Node { data: map_state(old(self).data, StateChange::Focus(false)), ..*old(self) }),
    {
        self.change_state(StateChange::Focus(false));
    }

    /// Sets the active state (elements only).
    pub fn active(&mut self)
        ensures
            *final(self) == (Node { data: map_state(old(self).data, StateChange::Active(true)), ..*old(self) }),
    {
        self.change_state(StateChange::Active(true));
    }

    /// Clears the active state (elements only).
    pub fn unactive(&mut self)
        ensures
            *final(self) == (Node { data: map_state(old(self).data, StateChange::Active(false)), ..*old(self) }),
    {
        self.change_state(StateChange::Active(false));
    }

    /// Marks an element that can be disabled as disabled (and not enabled); its children
    /// are left alone.
    pub fn disable(&mut self)
        ensures
            *final(self) == (Node { data: map_state(old(self).data, StateChange::Disabled(true)), ..*old(self) }),
    {
        self.change_state(StateChange::Disabled(true));
    }

    /// Marks an element that can be disabled as enabled (and not disabled); its children
    /// are left alone.
    pub fn enable(&mut self)
        ensures
            *final(self) == (Node { data: map_state(old(self).data, StateChange::Disabled(false)), ..*old(self) }),
    {
        self.change_state(StateChange::Disabled(false));
    }

    fn change_state(&mut self, change: StateChange)
        ensures
            *final(self) == (Node { data: map_state(old(self).data, change), ..*old(self) }),
    {
        match &mut self.data {
            NodeData::Element(e) => e.change_state(change),
            NodeData::AnonymousBlock(e) => e.change_state(change),
            _ => {},
        }
    }

    /// The index of `child_id` among our children.
    pub fn index_of_child(&self, child_id: usize) -> (r: Option<usize>)
        ensures
            match r {
                Some(i) => i < self.children@.len() && self.children@[i as int] == child_id
                    && forall|j: int| 0 <= j < i ==> self.children@[j] != child_id,
                None => !self.children@.contains(child_id),
            },
    {
        let n = self.children.len();
        let mut i: usize = 0;
        while i < n
            invariant
                n == self.children@.len(),
                i <= n,
                forall|j: int| 0 <= j < i ==> self.children@[j] != child_id,
            decreases n - i,
        {
            if self.children[i] == child_id {
                return Some(i);
            }
            i = i + 1;
        }
        None
    }
}

/// A change of the interaction state of an element.
#[derive(Clone, Copy, Debug)]
pub enum StateChange {
    Hover(bool),
    Focus(bool),
    Active(bool),
    /// Disabled (`true`) or enabled (`false`); only for elements that can be disabled.
    Disabled(bool),
}

/// The state of an element named `local` after `change`.
pub open spec fn changed_state(s: ElementState, local: Seq<char>, change: StateChange) -> ElementState {
    match change {
        StateChange::Hover(b) => ElementState { hover: b, ..s },
        StateChange::Focus(b) => ElementState { focus: b, focus_ring: b, ..s },
        StateChange::Active(b) => ElementState { active: b, ..s },
        StateChange::Disabled(b) => if is_form_control(local) {
            ElementState { disabled: b, enabled: !b, ..s }
        } else {
            s
        },
    }
}

/// `data` after a change of its element state (unchanged for nodes other than elements).
pub open spec fn map_state(data: NodeData, change: StateChange) -> NodeData {
    match data {
        NodeData::Element(e) => NodeData::Element(
            ElementData { element_state: changed_state(e.element_state, e.name.local@, change), ..e },
        ),
        NodeData::AnonymousBlock(e) => NodeData::AnonymousBlock(
            ElementData { element_state: changed_state(e.element_state, e.name.local@, change), ..e },
        ),
        _ => data,
    }
}

/// A later change of the same state overrides an earlier one: hovering then unhovering
/// (or focusing then blurring, activating then deactivating, disabling then enabling)
/// leaves the node as the later change alone would.
pub proof fn law_state_change_overrides(data: NodeData, first: StateChange, second: StateChange)
    requires
        match (first, second) {
            (StateChange::Hover(_), StateChange::Hover(_)) => true,
            (StateChange::Focus(_), StateChange::Focus(_)) => true,
            (StateChange::Active(_), StateChange::Active(_)) => true,
            (StateChange::Disabled(_), StateChange::Disabled(_)) => true,
            _ => false,
        },
    ensures
        map_state(map_state(data, first), second) == map_state(data, second),
{
}

impl ElementData {
    /// Applies `change` to the element state.
    pub fn change_state(&mut self, change: StateChange)
        ensures
            *final(self) == (ElementData {
                element_state: changed_state(old(self).element_state, old(self).name.local@, change),
                ..*old(self)
            }),
    {
        match change {
            StateChange::Hover(b) => {
                self.element_state.hover = b;
            },
            StateChange::Focus(b) => {
                self.element_state.focus = b;
                self.element_state.focus_ring = b;
            },
            StateChange::Active(b) => {
                self.element_state.active = b;
            },
            StateChange::Disabled(b) => {
                if self.can_be_disabled() {
                    self.element_state.disabled = b;
                    self.element_state.enabled = !b;
                }
            },
        }
    }
}

/// Whether every character of `s` is ASCII white space.
pub fn ascii_white_space_only(s: &str) -> (r: bool)
    ensures
        r == all_ascii_white_space(s@),
{
    let n = s.unicode_len();
    let mut i: usize = 0;
    while i < n
        invariant
            n == s@.len(),
            i <= n,
            forall|j: int| 0 <= j < i ==> is_ascii_white_space(#[trigger] s@[j]),
        decreases n - i,
    {
        let c = s.get_char(i);
        if !(c == ' ' || c == '\t' || c == '\n' || c == '\u{c}' || c == '\r') {
            assert(!is_ascii_white_space(s@[i as int]));
            return false;
        }
        i = i + 1;
    }
    true
}

/// Whether every character of `s` is ASCII white space.
pub open spec fn all_ascii_white_space(s: Seq<char>) -> bool {
    forall|i: int| 0 <= i < s.len() ==> is_ascii_white_space(#[trigger] s[i])
}

/// ASCII white space as `char::is_ascii_whitespace` defines it.
pub open spec fn is_ascii_white_space(c: char) -> bool {
    c == ' ' || c == '\t' || c == '\n' || c == '\u{c}' || c == '\r'
}

} // verus!
