//! Text content and HTML serialization of subtrees.
use vstd::prelude::*;

use crate::document::{node_wf, BaseDocument};
use crate::node::{Attribute, Node, NodeData};

verus! {

/// The entity a character becomes in a quoted attribute value, or the character itself.
pub open spec fn quoted_attr_char(c: char) -> Seq<char> {
    if c == '&' {
        "&amp;"@
    } else if c == '<' {
        "&lt;"@
    } else if c == '>' {
        "&gt;"@
    } else if c == '"' {
        "&quot;"@
    } else if c == '\'' {
        "&#x27;"@
    } else {
        seq![c]
    }
}

/// `s` escaped for use in a quoted attribute value: `&`, `<`, `>`, `"` and `'` become
/// entities.
pub open spec fn quoted_attr_escaped(s: Seq<char>) -> Seq<char>
    decreases s.len(),
{
    if s.len() == 0 {
        Seq::empty()
    } else {
        quoted_attr_escaped(s.drop_last()) + quoted_attr_char(s.last())
    }
}

/// Calls `html_escape::encode_quoted_attribute_to_string`. Trusted: it appends `text` to
/// `out` with `&`, `<`, `>`, `"` and `'` replaced by `&amp;`, `&lt;`, `&gt;`, `&quot;`
/// and `&#x27;`, as the crate documents and its escape table shows.
#[verifier::external_body]
fn encode_quoted_attribute(text: &str, out: &mut String)
    ensures
        final(out)@ == old(out)@ + quoted_attr_escaped(text@),
{
    html_escape::encode_quoted_attribute_to_string(text, out);
}

/// The text content of node `id`, looking at most `fuel` levels down: a text node's text,
/// and an element's the concatenation of its children's.
pub open spec fn text_of(nodes: Seq<Node>, id: int, fuel: nat) -> Seq<char>
    decreases fuel, 0nat,
{
    if !(0 <= id < nodes.len()) {
        Seq::empty()
    } else {
        match nodes[id].data {
            NodeData::Text(t) => t.content@,
            NodeData::Element(_) | NodeData::AnonymousBlock(_) => if fuel > 0 {
                text_of_list(nodes, nodes[id].children@, (fuel - 1) as nat)
            } else {
                Seq::empty()
            },
            _ => Seq::empty(),
        }
    }
}

/// The text contents of the nodes of `ids`, concatenated.
pub open spec fn text_of_list(nodes: Seq<Node>, ids: Seq<usize>, fuel: nat) -> Seq<char>
    decreases fuel, ids.len() + 1,
{
    if ids.len() == 0 {
        Seq::empty()
    } else {
        text_of_list(nodes, ids.drop_last(), fuel) + text_of(nodes, ids.last() as int, fuel)
    }
}

/// `s` repeated `n` times.
pub open spec fn repeat(s: Seq<char>, n: nat) -> Seq<char>
    decreases n,
{
    if n == 0 {
        Seq::empty()
    } else {
        repeat(s, (n - 1) as nat) + s
    }
}

/// The indentation before a line at depth `nesting` (none unless pretty).
pub open spec fn indent(pretty: bool, nesting: nat) -> Seq<char> {
    if pretty {
        repeat("  "@, nesting)
    } else {
        Seq::empty()
    }
}

/// The line break after a line (none unless pretty).
pub open spec fn line_end(pretty: bool) -> Seq<char> {
    if pretty {
        seq!['\n']
    } else {
        Seq::empty()
    }
}

/// The attributes of a start tag: ` name="value"` each, values escaped.
pub open spec fn attrs_html(attrs: Seq<Attribute>) -> Seq<char>
    decreases attrs.len(),
{
    if attrs.len() == 0 {
        Seq::empty()
    } else {
        attrs_html(attrs.drop_last()) + seq![' '] + attrs.last().name.local@ + "=\""@
            + quoted_attr_escaped(attrs.last().value@) + seq!['"']
    }
}

/// The start tag of an element named `local` (self-closing when it has no children), on a
/// line of its own when pretty.
pub open spec fn open_tag(local: Seq<char>, attrs: Seq<Attribute>, has_children: bool, pretty: bool, nesting: nat) -> Seq<char> {
    indent(pretty, nesting) + seq!['<'] + local + attrs_html(attrs) + if has_children {
        Seq::empty()
    } else {
        " /"@
    } + seq!['>'] + line_end(pretty)
}

/// The end tag of an element named `local`, on a line of its own when pretty.
pub open spec fn close_tag(local: Seq<char>, pretty: bool, nesting: nat) -> Seq<char> {
    indent(pretty, nesting) + "</"@ + local + seq!['>'] + line_end(pretty)
}

/// The HTML of node `id` and its descendants (looking at most `fuel` levels down): text as
/// is, elements as tags with their attributes (`<name ... />` when childless), other nodes
/// as nothing. When `pretty`, every line is indented by its depth and ends with a break.
pub open spec fn html_of(nodes: Seq<Node>, id: int, pretty: bool, nesting: nat, fuel: nat) -> Seq<char>
    decreases fuel, 0nat,
{
    if !(0 <= id < nodes.len()) {
        Seq::empty()
    } else {
        match nodes[id].data {
            NodeData::Text(t) => indent(pretty, nesting) + t.content@ + line_end(pretty),
            NodeData::Element(e) => {
                let has_children = nodes[id].children@.len() > 0;
                let open = open_tag(e.name.local@, e.attrs.items(), has_children, pretty, nesting);
                if has_children {
                    open + if fuel > 0 {
                        html_of_list(nodes, nodes[id].children@, pretty, nesting + 1, (fuel - 1) as nat)
                    } else {
                        Seq::empty()
                    } + close_tag(e.name.local@, pretty, nesting)
                } else {
                    open
                }
            },
            _ => Seq::empty(),
        }
    }
}

/// The HTML of the nodes of `ids`, concatenated.
pub open spec fn html_of_list(nodes: Seq<Node>, ids: Seq<usize>, pretty: bool, nesting: nat, fuel: nat) -> Seq<char>
    decreases fuel, ids.len() + 1,
{
    if ids.len() == 0 {
        Seq::empty()
    } else {
        html_of_list(nodes, ids.drop_last(), pretty, nesting, fuel) + html_of(
            nodes,
            ids.last() as int,
            pretty,
            nesting,
            fuel,
        )
    }
}

/// `k` spaces.
pub open spec fn spaces(k: nat) -> Seq<char> {
    Seq::new(k, |i: int| ' ')
}

/// The texts of `lines`, one after the other.
pub open spec fn plain_join(lines: Seq<(nat, Seq<char>)>) -> Seq<char>
    decreases lines.len(),
{
    if lines.len() == 0 {
        Seq::empty()
    } else {
        plain_join(lines.drop_last()) + lines.last().1
    }
}

/// The texts of `lines`, each indented by two spaces per level of its depth and ended
/// with a line break, one after the other.
pub open spec fn pretty_join(lines: Seq<(nat, Seq<char>)>) -> Seq<char>
    decreases lines.len(),
{
    if lines.len() == 0 {
        Seq::empty()
    } else {
        pretty_join(lines.drop_last()) + spaces(2 * lines.last().0) + lines.last().1 + seq!['\n']
    }
}

/// The tag of an element named `local` without the layout of pretty output.
spec fn bare_open_tag(local: Seq<char>, attrs: Seq<Attribute>, has_children: bool) -> Seq<char> {
    seq!['<'] + local + attrs_html(attrs) + if has_children {
        Seq::empty()
    } else {
        " /"@
    } + seq!['>']
}

/// The lines of the HTML of node `id`: each tag and text with its depth.
spec fn html_lines(nodes: Seq<Node>, id: int, nesting: nat, fuel: nat) -> Seq<(nat, Seq<char>)>
    decreases fuel, 0nat,
{
    if !(0 <= id < nodes.len()) {
        Seq::empty()
    } else {
        match nodes[id].data {
            NodeData::Text(t) => seq![(nesting, t.content@)],
            NodeData::Element(e) => {
                let has_children = nodes[id].children@.len() > 0;
                let open = seq![(nesting, bare_open_tag(e.name.local@, e.attrs.items(), has_children))];
                if has_children {
                    open + (if fuel > 0 {
                        html_lines_list(nodes, nodes[id].children@, nesting + 1, (fuel - 1) as nat)
                    } else {
                        Seq::empty()
                    }) + seq![(nesting, "</"@ + e.name.local@ + seq!['>'])]
                } else {
                    open
                }
            },
            _ => Seq::empty(),
        }
    }
}

/// The lines of the HTML of the nodes of `ids`.
spec fn html_lines_list(nodes: Seq<Node>, ids: Seq<usize>, nesting: nat, fuel: nat) -> Seq<(nat, Seq<char>)>
    decreases fuel, ids.len() + 1,
{
    if ids.len() == 0 {
        Seq::empty()
    } else {
        html_lines_list(nodes, ids.drop_last(), nesting, fuel) + html_lines(nodes, ids.last() as int, nesting, fuel)
    }
}

/// Joining lines distributes over concatenation.
proof fn lemma_join_append(a: Seq<(nat, Seq<char>)>, b: Seq<(nat, Seq<char>)>)
    ensures
        plain_join(a + b) == plain_join(a) + plain_join(b),
        pretty_join(a + b) == pretty_join(a) + pretty_join(b),
    decreases b.len(),
{
    if b.len() == 0 {
        assert(a + b =~= a);
        assert(plain_join(a) + plain_join(b) =~= plain_join(a));
        assert(pretty_join(a) + pretty_join(b) =~= pretty_join(a));
    } else {
        lemma_join_append(a, b.drop_last());
        assert((a + b).drop_last() =~= a + b.drop_last());
        assert((a + b).last() == b.last());
        assert(plain_join(a) + plain_join(b.drop_last()) + b.last().1 =~= plain_join(a) + (plain_join(b.drop_last())
            + b.last().1));
        let t = spaces(2 * b.last().0) + b.last().1 + seq!['\n'];
        assert(pretty_join(b) == pretty_join(b.drop_last()) + spaces(2 * b.last().0) + b.last().1 + seq!['\n']);
        assert(pretty_join(a) + pretty_join(b.drop_last()) + spaces(2 * b.last().0) + b.last().1 + seq!['\n']
            =~= pretty_join(a) + (pretty_join(b.drop_last()) + spaces(2 * b.last().0) + b.last().1 + seq!['\n']));
    }
}

/// Indentation is two spaces per level.
proof fn lemma_indent_spaces(nesting: nat)
    ensures
        indent(true, nesting) == spaces(2 * nesting),
    decreases nesting,
{
    if nesting > 0 {
        lemma_indent_spaces((nesting - 1) as nat);
        assert(repeat("  "@, nesting) == repeat("  "@, (nesting - 1) as nat) + "  "@);
        reveal_strlit("  ");
        assert(spaces(2 * (nesting - 1) as nat) + "  "@ =~= spaces(2 * nesting));
    } else {
        assert(spaces(0) =~= Seq::<char>::empty());
    }
}

/// A single line joins to its text, and to its text indented and ended when pretty.
proof fn lemma_join_one(d: nat, t: Seq<char>)
    ensures
        plain_join(seq![(d, t)]) == t,
        pretty_join(seq![(d, t)]) == spaces(2 * d) + t + seq!['\n'],
{
    let l = seq![(d, t)];
    assert(l.drop_last() =~= Seq::<(nat, Seq<char>)>::empty());
    assert(plain_join(l.drop_last()) == Seq::<char>::empty());
    assert(pretty_join(l.drop_last()) == Seq::<char>::empty());
    assert(l.last() == (d, t));
    assert(Seq::<char>::empty() + t =~= t);
    assert(Seq::<char>::empty() + spaces(2 * d) + t + seq!['\n'] =~= spaces(2 * d) + t + seq!['\n']);
}

/// The lines of a node give its plain and its pretty HTML.
proof fn lemma_html_lines(nodes: Seq<Node>, id: int, nesting: nat, fuel: nat)
    ensures
        plain_join(html_lines(nodes, id, nesting, fuel)) == html_of(nodes, id, false, nesting, fuel),
        pretty_join(html_lines(nodes, id, nesting, fuel)) == html_of(nodes, id, true, nesting, fuel),
    decreases fuel, 0nat,
{
    lemma_indent_spaces(nesting);
    if 0 <= id < nodes.len() {
        match nodes[id].data {
            NodeData::Text(t) => {
                lemma_join_one(nesting, t.content@);
                assert(Seq::<char>::empty() + t.content@ + Seq::<char>::empty() =~= t.content@);
            },
            NodeData::Element(e) => {
                let has_children = nodes[id].children@.len() > 0;
                let local = e.name.local@;
                let bare = bare_open_tag(local, e.attrs.items(), has_children);
                let open = seq![(nesting, bare)];
                lemma_join_one(nesting, bare);
                assert(open_tag(local, e.attrs.items(), has_children, false, nesting) =~= bare);
                assert(open_tag(local, e.attrs.items(), has_children, true, nesting) =~= spaces(2 * nesting) + bare
                    + seq!['\n']);
                if has_children {
                    let inner = if fuel > 0 {
                        html_lines_list(nodes, nodes[id].children@, nesting + 1, (fuel - 1) as nat)
                    } else {
                        Seq::empty()
                    };
                    if fuel > 0 {
                        lemma_html_lines_list(nodes, nodes[id].children@, nesting + 1, (fuel - 1) as nat);
                    } else {
                        assert(plain_join(inner) =~= Seq::<char>::empty());
                        assert(pretty_join(inner) =~= Seq::<char>::empty());
                    }
                    let close = "</"@ + local + seq!['>'];
                    lemma_join_one(nesting, close);
                    lemma_join_append(open, inner);
                    lemma_join_append(open + inner, seq![(nesting, close)]);
                    assert(close_tag(local, false, nesting) =~= close);
                    assert(close_tag(local, true, nesting) =~= spaces(2 * nesting) + close + seq!['\n']);
                    assert(plain_join(html_lines(nodes, id, nesting, fuel)) =~= html_of(nodes, id, false, nesting, fuel));
                    assert(pretty_join(html_lines(nodes, id, nesting, fuel)) =~= html_of(nodes, id, true, nesting, fuel));
                }
            },
            _ => {
                assert(plain_join(Seq::<(nat, Seq<char>)>::empty()) =~= Seq::<char>::empty());
            },
        }
    }
}

/// The lines of a list of nodes give their plain and pretty HTML.
proof fn lemma_html_lines_list(nodes: Seq<Node>, ids: Seq<usize>, nesting: nat, fuel: nat)
    ensures
        plain_join(html_lines_list(nodes, ids, nesting, fuel)) == html_of_list(nodes, ids, false, nesting, fuel),
        pretty_join(html_lines_list(nodes, ids, nesting, fuel)) == html_of_list(nodes, ids, true, nesting, fuel),
    decreases fuel, ids.len() + 1,
{
    if ids.len() > 0 {
        lemma_html_lines_list(nodes, ids.drop_last(), nesting, fuel);
        lemma_html_lines(nodes, ids.last() as int, nesting, fuel);
        lemma_join_append(
            html_lines_list(nodes, ids.drop_last(), nesting, fuel),
            html_lines(nodes, ids.last() as int, nesting, fuel),
        );
    }
}

/// Pretty serialization only adds layout: the HTML of any subtree is a sequence of lines
/// (tags and texts, each at a depth) whose texts joined give the plain HTML, and whose
/// texts each indented by two spaces per level and ended with a line break give the pretty
/// HTML; so removing that indentation and those line breaks from the pretty HTML gives
/// the plain HTML. A text node gives exactly its text, indented and on a line of its own
/// when pretty.
pub proof fn law_pretty_html_only_adds_layout(nodes: Seq<Node>, id: int, nesting: nat, fuel: nat)
    ensures
        exists|lines: Seq<(nat, Seq<char>)>|
            plain_join(lines) == html_of(nodes, id, false, nesting, fuel) && #[trigger] pretty_join(lines) == html_of(
                nodes,
                id,
                true,
                nesting,
                fuel,
            ),
        0 <= id < nodes.len() && nodes[id].data is Text ==> html_of(nodes, id, false, nesting, fuel)
            == nodes[id].data->Text_0.content@ && html_of(nodes, id, true, nesting, fuel) == spaces(2 * nesting)
            + nodes[id].data->Text_0.content@ + seq!['\n'],
{
    lemma_html_lines(nodes, id, nesting, fuel);
    lemma_indent_spaces(nesting);
    if 0 <= id < nodes.len() && nodes[id].data is Text {
        let c = nodes[id].data->Text_0.content@;
        assert(Seq::<char>::empty() + c + Seq::<char>::empty() =~= c);
    }
    let lines = html_lines(nodes, id, nesting, fuel);
    assert(plain_join(lines) == html_of(nodes, id, false, nesting, fuel) && pretty_join(lines) == html_of(
        nodes,
        id,
        true,
        nesting,
        fuel,
    ));
}

/// Escaping for a quoted attribute value leaves no `<`, `>`, `"` or `'` in the value, and
/// changes nothing in a value that holds none of `&`, `<`, `>`, `"` and `'`; the escaped
/// value is never shorter.
pub proof fn law_attribute_escaping(s: Seq<char>)
    ensures
        forall|i: int|
            0 <= i < quoted_attr_escaped(s).len() ==> #[trigger] quoted_attr_escaped(s)[i] != '<' && quoted_attr_escaped(s)[i]
                != '>' && quoted_attr_escaped(s)[i] != '"' && quoted_attr_escaped(s)[i] != '\'',
        (forall|i: int|
            0 <= i < s.len() ==> #[trigger] s[i] != '&' && s[i] != '<' && s[i] != '>' && s[i] != '"' && s[i] != '\'')
            ==> quoted_attr_escaped(s) == s,
        quoted_attr_escaped(s).len() >= s.len(),
    decreases s.len(),
{
    reveal_strlit("&amp;");
    reveal_strlit("&lt;");
    reveal_strlit("&gt;");
    reveal_strlit("&quot;");
    reveal_strlit("&#x27;");
    if s.len() > 0 {
        let t = s.drop_last();
        law_attribute_escaping(t);
        let a = quoted_attr_escaped(t);
        let b = quoted_attr_char(s.last());
        assert(quoted_attr_escaped(s) == a + b);
        assert forall|i: int| 0 <= i < b.len() implies #[trigger] b[i] != '<' && b[i] != '>' && b[i] != '"' && b[i] != '\'' by {
        }
        assert forall|i: int| 0 <= i < (a + b).len() implies #[trigger] (a + b)[i] != '<' && (a + b)[i] != '>' && (a + b)[i]
            != '"' && (a + b)[i] != '\'' by {
            if i < a.len() {
                assert((a + b)[i] == a[i]);
            } else {
                assert((a + b)[i] == b[i - a.len()]);
            }
        }
        if forall|i: int|
            0 <= i < s.len() ==> #[trigger] s[i] != '&' && s[i] != '<' && s[i] != '>' && s[i] != '"' && s[i] != '\'' {
            assert forall|i: int| 0 <= i < t.len() implies #[trigger] t[i] != '&' && t[i] != '<' && t[i] != '>' && t[i]
                != '"' && t[i] != '\'' by {
                assert(t[i] == s[i]);
            }
            assert(s.last() == s[s.len() - 1]);
            assert(a + b =~= s);
        }
    }
}

/// The plain HTML of an element starts with `<` and its name, and ends with `</name>`
/// when it has children and with ` />` when it has none.
pub proof fn law_element_html_tags(nodes: Seq<Node>, id: int, fuel: nat)
    requires
        0 <= id < nodes.len(),
        nodes[id].data is Element,
    ensures
        ({
            let local = nodes[id].data->Element_0.name.local@;
            let h = html_of(nodes, id, false, 0, fuel);
            &&& h.len() >= local.len() + 1
            &&& h.take(local.len() + 1 as int) == seq!['<'] + local
            &&& nodes[id].children@.len() > 0 ==> h.len() >= local.len() + 3 && h.skip(h.len() - local.len() - 3)
                == "</"@ + local + seq!['>']
            &&& nodes[id].children@.len() == 0 ==> h.len() >= 3 && h.skip(h.len() - 3) == " />"@
        }),
{
    reveal_strlit("</");
    reveal_strlit(" /");
    reveal_strlit(" />");
    let e = nodes[id].data->Element_0;
    let local = e.name.local@;
    let has_children = nodes[id].children@.len() > 0;
    let rest = attrs_html(e.attrs.items()) + if has_children {
        Seq::empty()
    } else {
        " /"@
    } + seq!['>'];
    let open = open_tag(local, e.attrs.items(), has_children, false, 0);
    assert(open =~= seq!['<'] + local + rest);
    let h = html_of(nodes, id, false, 0, fuel);
    if has_children {
        let inner = if fuel > 0 {
            html_of_list(nodes, nodes[id].children@, false, 1, (fuel - 1) as nat)
        } else {
            Seq::empty()
        };
        let close = close_tag(local, false, 0);
        assert(close =~= "</"@ + local + seq!['>']);
        assert(h == open + inner + close);
        assert(h.take(local.len() + 1 as int) =~= seq!['<'] + local);
        assert(h.skip(h.len() - local.len() - 3) =~= "</"@ + local + seq!['>']);
    } else {
        assert(h == open);
        assert(h.take(local.len() + 1 as int) =~= seq!['<'] + local);
        assert(h.skip(h.len() - 3) =~= " />"@);
    }
}

fn push_indent(pretty: bool, nesting: usize, out: &mut String)
    ensures
        final(out)@ == old(out)@ + indent(pretty, nesting as nat),
{
    if pretty {
        let mut i: usize = 0;
        while i < nesting
            invariant
                i <= nesting,
                out@ == old(out)@ + repeat("  "@, i as nat),
            decreases nesting - i,
        {
            out.append("  ");
            i = i + 1;
            proof {
                assert(repeat("  "@, i as nat) == repeat("  "@, (i - 1) as nat) + "  "@);
            }
        }
    } else {
        assert(out@ =~= old(out)@ + Seq::<char>::empty());
    }
}

fn push_line_end(pretty: bool, out: &mut String)
    ensures
        final(out)@ == old(out)@ + line_end(pretty),
{
    if pretty {
        out.push('\n');
    } else {
        assert(out@ =~= old(out)@ + Seq::<char>::empty());
    }
}

fn push_attrs(attrs: &[Attribute], out: &mut String)
    ensures
        final(out)@ == old(out)@ + attrs_html(attrs@),
{
    let n = attrs.len();
    let mut k: usize = 0;
    while k < n
        invariant
            n == attrs@.len(),
            k <= n,
            out@ == old(out)@ + attrs_html(attrs@.take(k as int)),
        decreases n - k,
    {
        let a = &attrs[k];
        out.push(' ');
        out.append(a.name.local.as_str());
        out.append("=\"");
        encode_quoted_attribute(a.value.as_str(), out);
        out.push('"');
        proof {
            assert(attrs@.take(k + 1).drop_last() =~= attrs@.take(k as int));
            assert(attrs@.take(k + 1).last() == *a);
            assert(out@ =~= old(out)@ + attrs_html(attrs@.take(k + 1)));
        }
        k = k + 1;
    }
    proof {
        assert(attrs@.take(n as int) =~= attrs@);
    }
}

fn push_open_tag(local: &str, attrs: &[Attribute], has_children: bool, pretty: bool, nesting: usize, out: &mut String)
    ensures
        final(out)@ == old(out)@ + open_tag(local@, attrs@, has_children, pretty, nesting as nat),
{
    let ghost start = out@;
    push_indent(pretty, nesting, out);
    out.push('<');
    out.append(local);
    push_attrs(attrs, out);
    if !has_children {
        out.append(" /");
    }
    out.push('>');
    push_line_end(pretty, out);
    proof {
        assert(out@ =~= start + open_tag(local@, attrs@, has_children, pretty, nesting as nat));
    }
}

fn push_close_tag(local: &str, pretty: bool, nesting: usize, out: &mut String)
    ensures
        final(out)@ == old(out)@ + close_tag(local@, pretty, nesting as nat),
{
    let ghost start = out@;
    push_indent(pretty, nesting, out);
    out.append("</");
    out.append(local);
    out.push('>');
    push_line_end(pretty, out);
    proof {
        assert(out@ =~= start + close_tag(local@, pretty, nesting as nat));
    }
}

impl BaseDocument {
    fn write_text_content(&self, id: usize, fuel: usize, out: &mut String)
        requires
            self.wf(),
        ensures
            final(out)@ == old(out)@ + text_of(self@, id as int, fuel as nat),
        decreases fuel,
    {
        if id >= self.nodes.len() {
            assert(out@ =~= old(out)@ + Seq::<char>::empty());
            return;
        }
        proof {
            assert(node_wf(self@[id as int], id as int, self@.len() as int));
        }
        match &self.nodes[id].data {
            NodeData::Text(t) => {
                out.append(t.content.as_str());
            },
            NodeData::Element(_) | NodeData::AnonymousBlock(_) => {
                if fuel == 0 {
                    assert(out@ =~= old(out)@ + Seq::<char>::empty());
                    return;
                }
                let n = self.nodes[id].children.len();
                let mut k: usize = 0;
                while k < n
                    invariant
                        self.wf(),
                        id < self@.len(),
                        fuel > 0,
                        n == self@[id as int].children@.len(),
                        k <= n,
                        out@ == old(out)@ + text_of_list(
                            self@,
                            self@[id as int].children@.take(k as int),
                            (fuel - 1) as nat,
                        ),
                    decreases n - k,
                {
                    let c = self.nodes[id].children[k];
                    self.write_text_content(c, fuel - 1, out);
                    proof {
                        let kids = self@[id as int].children@;
                        assert(kids.take(k + 1).drop_last() =~= kids.take(k as int));
                        assert(kids.take(k + 1).last() == c);
                        assert(out@ =~= old(out)@ + text_of_list(self@, kids.take(k + 1), (fuel - 1) as nat));
                    }
                    k = k + 1;
                }
                proof {
                    assert(self@[id as int].children@.take(n as int) =~= self@[id as int].children@);
                }
            },
            _ => {
                assert(out@ =~= old(out)@ + Seq::<char>::empty());
            },
        }
    }

    /// The text content of node `id`: a text node's text, and for an element the text of
    /// its descendants in order (looking at most as many levels down as there are nodes).
    pub fn text_content(&self, id: usize) -> (r: String)
        requires
            self.wf(),
        ensures
            r@ == text_of(self@, id as int, self@.len() as nat),
    {
        let mut out = String::new();
        self.write_text_content(id, self.nodes.len(), &mut out);
        out
    }

    fn write_outer_html_in_style(&self, id: usize, pretty: bool, nesting: usize, fuel: usize, out: &mut String)
        requires
            self.wf(),
            nesting + fuel <= usize::MAX,
        ensures
            final(out)@ == old(out)@ + html_of(self@, id as int, pretty, nesting as nat, fuel as nat),
        decreases fuel,
    {
        if id >= self.nodes.len() {
            assert(out@ =~= old(out)@ + Seq::<char>::empty());
            return;
        }
        proof {
            assert(node_wf(self@[id as int], id as int, self@.len() as int));
        }
        let has_children = self.nodes[id].children.len() > 0;
        match &self.nodes[id].data {
            NodeData::Text(t) => {
                push_indent(pretty, nesting, out);
                out.append(t.content.as_str());
                push_line_end(pretty, out);
            },
            NodeData::Element(e) => {
                push_open_tag(e.name.local.as_str(), e.attrs.as_slice(), has_children, pretty, nesting, out);
                let ghost opened = out@;
                if has_children {
                    if fuel > 0 {
                        let n = self.nodes[id].children.len();
                        let mut k: usize = 0;
                        while k < n
                            invariant
                                self.wf(),
                                id < self@.len(),
                                fuel > 0,
                                nesting + fuel <= usize::MAX,
                                n == self@[id as int].children@.len(),
                                k <= n,
                                out@ == opened + html_of_list(
                                    self@,
                                    self@[id as int].children@.take(k as int),
                                    pretty,
                                    (nesting + 1) as nat,
                                    (fuel - 1) as nat,
                                ),
                            decreases n - k,
                        {
                            let c = self.nodes[id].children[k];
                            self.write_outer_html_in_style(c, pretty, nesting + 1, fuel - 1, out);
                            proof {
                                let kids = self@[id as int].children@;
                                assert(kids.take(k + 1).drop_last() =~= kids.take(k as int));
                                assert(kids.take(k + 1).last() == c);
                                assert(out@ =~= opened + html_of_list(
                                    self@,
                                    kids.take(k + 1),
                                    pretty,
                                    (nesting + 1) as nat,
                                    (fuel - 1) as nat,
                                ));
                            }
                            k = k + 1;
                        }
                        proof {
                            assert(self@[id as int].children@.take(n as int) =~= self@[id as int].children@);
                        }
                    } else {
                        assert(out@ =~= opened + Seq::<char>::empty());
                    }
                    push_close_tag(e.name.local.as_str(), pretty, nesting, out);
                    proof {
                        assert(out@ =~= old(out)@ + html_of(self@, id as int, pretty, nesting as nat, fuel as nat));
                    }
                } else {
                    proof {
                        assert(out@ =~= old(out)@ + html_of(self@, id as int, pretty, nesting as nat, fuel as nat));
                    }
                }
            },
            _ => {
                assert(out@ =~= old(out)@ + Seq::<char>::empty());
            },
        }
    }

    /// The HTML of node `id` and its descendants without extra white space, e.g.
    /// `<main id="main"><div class="a" /></main>`.
    pub fn outer_html(&self, id: usize) -> (r: String)
        requires
            self.wf(),
        ensures
            r@ == html_of(self@, id as int, false, 0, self@.len() as nat),
    {
        let mut out = String::new();
        self.write_outer_html_in_style(id, false, 0, self.nodes.len(), &mut out);
        out
    }

    /// The HTML of node `id` and its descendants, one tag or text per line, indented by
    /// two spaces per level.
    pub fn outer_html_pretty(&self, id: usize) -> (r: String)
        requires
            self.wf(),
        ensures
            r@ == html_of(self@, id as int, true, 0, self@.len() as nat),
    {
        let mut out = String::new();
        self.write_outer_html_in_style(id, true, 0, self.nodes.len(), &mut out);
        out
    }
}

} // verus!
