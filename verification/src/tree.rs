//! The element tree and its rendering as indented XML.
use vstd::prelude::*;
use vstd::string::StringExecFns;

use crate::grammar::{Spec, SpecView};
use crate::text::push_char;

verus! {

/// The text of `c` inside an XML element: `&`, `<` and `>` become the
/// entities `&amp;`, `&lt;` and `&gt;`; every other character stands as it is.
pub open spec fn escape_char(c: char) -> Seq<char> {
    if c == '&' {
        "&amp;"@
    } else if c == '<' {
        "&lt;"@
    } else if c == '>' {
        "&gt;"@
    } else {
        seq![c]
    }
}

/// `s` escaped for XML element content, character by character.
pub open spec fn escape(s: Seq<char>) -> Seq<char>
    decreases s.len(),
{
    if s.len() == 0 {
        Seq::<char>::empty()
    } else {
        escape(s.drop_last()) + escape_char(s.last())
    }
}

/// Escapes `&`, `<` and `>` in `s` for use as XML element content.
pub fn escape_xml_text(s: &str) -> (r: String)
    ensures
        r@ == escape(s@),
{
    let mut out = String::new();
    proof {
        assert(s@.take(0) =~= Seq::<char>::empty());
    }
    for c in it: s.chars()
        invariant
            it.seq() == s@,
            out@ == escape(s@.take(it.index() as int)),
    {
        let ghost i = it.index();
        proof {
            assert(s@.take(i + 1).drop_last() =~= s@.take(i as int));
            assert(s@.take(i + 1).last() == c);
        }
        if c == '&' {
            out.append("&amp;");
        } else if c == '<' {
            out.append("&lt;");
        } else if c == '>' {
            out.append("&gt;");
        } else {
            push_char(&mut out, c);
        }
        proof {
            assert(out@ =~= escape(s@.take(i + 1)));
        }
    }
    proof {
        assert(s@.take(s@.len() as int) =~= s@);
    }
    out
}

/// One element of the tree: its tag, its text if it is a field, the indices
/// of its children in the tree's node list, and its row type if it came
/// from a row (or is the root).
#[derive(Debug, Clone)]
pub struct Node {
    pub tag: &'static str,
    pub text: Option<String>,
    pub children: Vec<usize>,
    pub spec: Option<&'static Spec>,
}

/// A `Node` with its strings taken as character sequences.
pub struct NodeView {
    pub tag: Seq<char>,
    pub text: Option<Seq<char>>,
    pub children: Seq<usize>,
    pub spec: Option<SpecView>,
}

impl View for Node {
    type V = NodeView;

    open spec fn view(&self) -> NodeView {
        NodeView {
            tag: self.tag@,
            text: match self.text {
                Some(t) => Some(t@),
                None => None,
            },
            children: self.children@,
            spec: match self.spec {
                Some(s) => Some(s@),
                None => None,
            },
        }
    }
}

/// The views of a list of nodes.
pub open spec fn nodes_view(nodes: Seq<Node>) -> Seq<NodeView> {
    nodes.map_values(|n: Node| n@)
}

/// The element tree: node 0 is the root; every other node is reached
/// through the `children` lists.
#[derive(Debug, Clone)]
pub struct Tree {
    pub nodes: Vec<Node>,
}

impl View for Tree {
    type V = Seq<NodeView>;

    open spec fn view(&self) -> Seq<NodeView> {
        nodes_view(self.nodes@)
    }
}

/// Every walk from node `idx` down the `children` lists stays inside the
/// node list and visits at most `fuel` nodes. A node with text is written
/// without its children, so the walk stops there.
pub open spec fn bounded(nodes: Seq<NodeView>, idx: int, fuel: nat) -> bool
    decreases fuel,
{
    &&& fuel > 0
    &&& 0 <= idx < nodes.len()
    &&& nodes[idx].text is None ==> forall|j: int|
        0 <= j < nodes[idx].children.len() ==> bounded(
            nodes,
            #[trigger] nodes[idx].children[j] as int,
            (fuel - 1) as nat,
        )
}

/// A tree can be rendered when it has a root and no walk from the root
/// (through nodes without text) leaves the node list or comes back to a node
/// it has passed: every walk visits at most as many nodes as there are.
pub open spec fn renderable(nodes: Seq<NodeView>) -> bool {
    bounded(nodes, 0, nodes.len())
}

/// Every child index points past its parent and into the node list.
pub open spec fn forward(nodes: Seq<NodeView>) -> bool {
    forall|i: int, j: int|
        0 <= i < nodes.len() && 0 <= j < nodes[i].children.len() ==> i < #[trigger] nodes[i].children[j]
            < nodes.len()
}

/// Two spaces per level of nesting.
pub open spec fn indent(depth: nat) -> Seq<char>
    decreases depth,
{
    if depth == 0 {
        Seq::<char>::empty()
    } else {
        indent((depth - 1) as nat) + "  "@
    }
}

/// The XML for node `idx` at nesting `depth`, one element per line. An
/// element with neither children nor text is written `<tag/>`; one with text
/// is written on one line with its text escaped; any other element has its
/// children's lines between its opening and closing lines, one level deeper.
/// `fuel` bounds the depth of the walk (see `bounded`).
pub open spec fn render_node(nodes: Seq<NodeView>, idx: int, depth: nat, fuel: nat) -> Seq<char>
    decreases fuel, 0nat,
{
    if fuel == 0 || !(0 <= idx < nodes.len()) {
        Seq::<char>::empty()
    } else {
        let n = nodes[idx];
        let ind = indent(depth);
        if n.children.len() == 0 && n.text is None {
            ind + "<"@ + n.tag + "/>\n"@
        } else if n.text is Some {
            ind + "<"@ + n.tag + ">"@ + escape(n.text->0) + "</"@ + n.tag + ">\n"@
        } else {
            ind + "<"@ + n.tag + ">\n"@ + render_list(nodes, n.children, depth + 1, (fuel - 1) as nat)
                + ind + "</"@ + n.tag + ">\n"@
        }
    }
}

/// The XML of the nodes `kids`, in order.
pub open spec fn render_list(nodes: Seq<NodeView>, kids: Seq<usize>, depth: nat, fuel: nat) -> Seq<
    char,
>
    decreases fuel, kids.len(),
{
    if kids.len() == 0 {
        Seq::<char>::empty()
    } else {
        render_list(nodes, kids.drop_last(), depth, fuel) + render_node(
            nodes,
            kids.last() as int,
            depth,
            fuel,
        )
    }
}

/// The XML document of a tree: its root element and everything below it.
pub open spec fn render_tree(nodes: Seq<NodeView>) -> Seq<char> {
    render_node(nodes, 0, 0, nodes.len())
}

/// `bounded` survives more fuel.
pub proof fn lemma_bounded_mono(nodes: Seq<NodeView>, idx: int, fuel: nat, more: nat)
    requires
        bounded(nodes, idx, fuel),
        fuel <= more,
    ensures
        bounded(nodes, idx, more),
    decreases fuel,
{
    assert forall|j: int| nodes[idx].text is None && 0 <= j < nodes[idx].children.len() implies bounded(
        nodes,
        #[trigger] nodes[idx].children[j] as int,
        (more - 1) as nat,
    ) by {
        lemma_bounded_mono(nodes, nodes[idx].children[j] as int, (fuel - 1) as nat, (more - 1) as nat);
    }
}

/// In a node list whose child indices all point forward, every walk from
/// node `idx` visits at most `nodes.len() - idx` nodes.
pub proof fn lemma_forward_bounded(nodes: Seq<NodeView>, idx: int)
    requires
        forward(nodes),
        0 <= idx < nodes.len(),
    ensures
        bounded(nodes, idx, (nodes.len() - idx) as nat),
    decreases nodes.len() - idx,
{
    assert forall|j: int| 0 <= j < nodes[idx].children.len() implies bounded(
        nodes,
        #[trigger] nodes[idx].children[j] as int,
        (nodes.len() - idx - 1) as nat,
    ) by {
        let c = nodes[idx].children[j] as int;
        lemma_forward_bounded(nodes, c);
        lemma_bounded_mono(nodes, c, (nodes.len() - c) as nat, (nodes.len() - idx - 1) as nat);
    }
}

/// A non-empty node list whose child indices all point forward can be
/// rendered.
pub proof fn lemma_forward_renderable(nodes: Seq<NodeView>)
    requires
        forward(nodes),
        nodes.len() > 0,
    ensures
        renderable(nodes),
{
    lemma_forward_bounded(nodes, 0);
}

fn push_indent(out: &mut String, depth: usize)
    ensures
        final(out)@ == old(out)@ + indent(depth as nat),
{
    let mut i: usize = 0;
    proof {
        assert(old(out)@ + indent(0) =~= old(out)@);
    }
    while i < depth
        invariant
            i <= depth,
            out@ == old(out)@ + indent(i as nat),
        decreases depth - i,
    {
        out.append("  ");
        i = i + 1;
        proof {
            assert(out@ =~= old(out)@ + indent(i as nat));
        }
    }
}

impl Tree {
    /// The whole tree as an XML document, one element per line, children
    /// indented two spaces deeper than their parent.
    pub fn render(&self) -> (r: String)
        requires
            renderable(self@),
        ensures
            r@ == render_tree(self@),
    {
        let mut out = String::new();
        // The node count is a `usize`, which bounds the depth of any walk.
        let _count = self.nodes.len();
        self.write(0, &mut out, 0, Ghost(self.nodes@.len() as nat));
        proof {
            assert(out@ =~= render_tree(self@));
        }
        out
    }

    fn write(&self, idx: usize, out: &mut String, depth: usize, Ghost(fuel): Ghost<nat>)
        requires
            bounded(self@, idx as int, fuel),
            depth + fuel <= usize::MAX,
        ensures
            final(out)@ == old(out)@ + render_node(self@, idx as int, depth as nat, fuel),
        decreases fuel,
    {
        let ghost nodes = self@;
        let node = &self.nodes[idx];
        assert(node@ == nodes[idx as int]);
        if node.children.len() == 0 && node.text.is_none() {
            push_indent(out, depth);
            out.append("<");
            out.append(node.tag);
            out.append("/>\n");
            proof {
                assert(final(out)@ =~= old(out)@ + render_node(nodes, idx as int, depth as nat, fuel));
            }
            return ;
        }
        if let Some(text) = &node.text {
            let escaped = escape_xml_text(text.as_str());
            push_indent(out, depth);
            out.append("<");
            out.append(node.tag);
            out.append(">");
            out.append(escaped.as_str());
            out.append("</");
            out.append(node.tag);
            out.append(">\n");
            proof {
                assert(final(out)@ =~= old(out)@ + render_node(nodes, idx as int, depth as nat, fuel));
            }
            return ;
        }
        push_indent(out, depth);
        out.append("<");
        out.append(node.tag);
        out.append(">\n");
        let ghost head = out@;
        let n = node.children.len();
        let mut k: usize = 0;
        proof {
            assert(node.children@.take(0) =~= Seq::<usize>::empty());
            assert(head + render_list(nodes, node.children@.take(0), (depth + 1) as nat, (fuel - 1) as nat) =~= head);
        }
        while k < n
            invariant
                nodes == self@,
                node@ == nodes[idx as int],
                n == node.children@.len(),
                k <= n,
                bounded(nodes, idx as int, fuel),
                depth + fuel <= usize::MAX,
                node@.text is None,
                fuel > 0,
                out@ == head + render_list(
                    nodes,
                    node.children@.take(k as int),
                    (depth + 1) as nat,
                    (fuel - 1) as nat,
                ),
            decreases n - k,
        {
            let c = node.children[k];
            proof {
                assert(nodes[idx as int].children[k as int] == c);
                assert(bounded(nodes, c as int, (fuel - 1) as nat));
                assert(node.children@.take(k + 1).drop_last() =~= node.children@.take(k as int));
                assert(node.children@.take(k + 1).last() == c);
            }
            self.write(c, out, depth + 1, Ghost((fuel - 1) as nat));
            k = k + 1;
            proof {
                assert(out@ =~= head + render_list(
                    nodes,
                    node.children@.take(k as int),
                    (depth + 1) as nat,
                    (fuel - 1) as nat,
                ));
            }
        }
        proof {
            assert(node.children@.take(n as int) =~= node.children@);
        }
        push_indent(out, depth);
        out.append("</");
        out.append(node.tag);
        out.append(">\n");
        proof {
            assert(final(out)@ =~= old(out)@ + render_node(nodes, idx as int, depth as nat, fuel));
        }
    }
}

} // verus!
