//! Properties of the library as a whole, stated over the specifications
//! that the functions' contracts use.
use vstd::prelude::*;

use crate::builder::{
    add_child, attach, attach_k, lemma_attach_facts, field_node, lemma_attach_forward, node_accepts, builder_wf, count_message, count_ok, deepest_acceptor, field_count, fit_values, issue,
    initial_builder, lemma_apply_wf, lemma_deepest_acceptor, parse_lines, spec_apply, spec_ingest,
    spec_parse_line, unattached_message, BuilderView,
};
use crate::grammar::{root_view, lookup_in, spec_lookup, spec_table, SpecView};
use crate::text::{is_blank, lines_of, split_on, strip_cr};
use crate::tree::{escape, escape_char, forward, indent, render_list, render_node, NodeView};

verus! {

/// `new` holds every node of `old` unchanged, except that a node may have
/// gained children after the ones it had.
pub open spec fn extends(old: Seq<NodeView>, new: Seq<NodeView>) -> bool {
    &&& old.len() <= new.len()
    &&& forall|i: int|
        0 <= i < old.len() ==> {
            &&& (#[trigger] new[i]).tag == old[i].tag
            &&& new[i].text == old[i].text
            &&& new[i].spec == old[i].spec
            &&& old[i].children.is_prefix_of(new[i].children)
        }
}

/// What a line of input reads back as from the XML text of an element:
/// the entities `&amp;`, `&lt;` and `&gt;` stand for `&`, `<` and `>`.
pub open spec fn unescape(t: Seq<char>) -> Seq<char>
    decreases t.len(),
{
    proof {
        reveal_strlit("&amp;");
        reveal_strlit("&lt;");
        reveal_strlit("&gt;");
    }
    if t.len() == 0 {
        t
    } else if "&amp;"@.is_prefix_of(t) {
        seq!['&'] + unescape(t.skip(5))
    } else if "&lt;"@.is_prefix_of(t) {
        seq!['<'] + unescape(t.skip(4))
    } else if "&gt;"@.is_prefix_of(t) {
        seq!['>'] + unescape(t.skip(4))
    } else {
        seq![t[0]] + unescape(t.skip(1))
    }
}

proof fn lemma_lookup_in_member(table: Seq<SpecView>, tag: Seq<char>)
    ensures
        lookup_in(table, tag) matches Some(s) ==> table.contains(s) && s.tag_in == tag,
    decreases table.len(),
{
    if table.len() > 0 && table[0].tag_in != tag {
        lemma_lookup_in_member(table.drop_first(), tag);
        match lookup_in(table.drop_first(), tag) {
            Some(s) => {
                let i = choose|i: int|
                    0 <= i < table.drop_first().len() && table.drop_first()[i] == s;
                assert(table[i + 1] == s);
            },
            None => {},
        }
    } else if table.len() > 0 {
        assert(table[0] == table[0]);
    }
}

/// Every row type of the grammar requires at least one field and has at
/// most three, and no more required fields than field names.
pub proof fn law_table_field_counts()
    ensures
        forall|i: int|
            0 <= i < spec_table().len() ==> {
                &&& 1 <= (#[trigger] spec_table()[i]).min_fields
                &&& spec_table()[i].min_fields <= spec_table()[i].field_names.len()
                &&& spec_table()[i].field_names.len() <= 3
            },
{
}

/// A row type that a tag looks up is the grammar's row type for that tag.
pub proof fn law_lookup_in_table(tag: Seq<char>)
    ensures
        spec_lookup(tag) matches Some(s) ==> spec_table().contains(s) && s.tag_in == tag,
{
    lemma_lookup_in_member(spec_table(), tag);
}

/// A blank line changes nothing: no node, no open container, no issue.
pub proof fn law_blank_line_changes_nothing(b: BuilderView, raw: Seq<char>, line_no: usize)
    requires
        is_blank(raw),
    ensures
        spec_ingest(b, raw, line_no) == b,
{
}

/// A kept row has a number of fields that its type allows: too many values
/// are cut to the field names, too few are filled up with empty values to
/// every field name. The values it keeps come first, in their order.
pub proof fn law_kept_rows_fit(spec: SpecView, values: Seq<Seq<char>>)
    requires
        spec.min_fields <= spec.field_names.len(),
    ensures
        count_ok(spec, field_count(spec, fit_values(spec, values))),
        field_count(spec, fit_values(spec, values)) == fit_values(spec, values).len(),
        forall|i: int|
            0 <= i < values.len() && i < fit_values(spec, values).len() ==> #[trigger] fit_values(
                spec,
                values,
            )[i] == values[i],
        forall|i: int|
            values.len() <= i < fit_values(spec, values).len() ==> #[trigger] fit_values(
                spec,
                values,
            )[i] == Seq::<char>::empty(),
        count_ok(spec, values.len()) ==> fit_values(spec, values) == values,
{
}

proof fn lemma_apply_cases(
    b: BuilderView,
    spec: SpecView,
    values: Seq<Seq<char>>,
    line_no: usize,
    raw: Seq<char>,
)
    requires
        builder_wf(b),
    ensures
        ({
            let r = spec_apply(b, spec, values, line_no, raw);
            ||| r == b.with_issue(issue(line_no, raw, unattached_message(spec)))
            ||| {
                &&& r.issues == b.issues
                &&& r.nodes.len() == b.nodes.len() + 1 + field_count(spec, values)
                &&& extends(b.nodes, r.nodes)
                &&& r.nodes[b.nodes.len() as int].spec == Some(spec)
            }
        }),
{
    lemma_deepest_acceptor(b.nodes, b.stack, spec.tag_in, b.stack.len() as int);
    match deepest_acceptor(b.nodes, b.stack, spec.tag_in, b.stack.len() as int) {
        None => {},
        Some(p) => {
            let parent = b.stack[p] as int;
            let r = spec_apply(b, spec, values, line_no, raw);
            assert(r.nodes == attach(b.nodes, parent, spec, values));
            lemma_attach_facts(b.nodes, parent, spec, values, field_count(spec, values));
            assert forall|i: int| 0 <= i < b.nodes.len() implies {
                &&& (#[trigger] r.nodes[i]).tag == b.nodes[i].tag
                &&& r.nodes[i].text == b.nodes[i].text
                &&& r.nodes[i].spec == b.nodes[i].spec
                &&& b.nodes[i].children.is_prefix_of(r.nodes[i].children)
            } by {
                if i == parent {
                    assert(r.nodes[i].children == b.nodes[i].children.push(b.nodes.len() as usize));
                    assert(b.nodes[i].children =~= r.nodes[i].children.take(
                        b.nodes[i].children.len() as int,
                    ));
                } else {
                    assert(r.nodes[i] == b.nodes[i]);
                    assert(b.nodes[i].children =~= r.nodes[i].children.take(
                        b.nodes[i].children.len() as int,
                    ));
                }
            }
        },
    }
}

/// One line either leaves the tree and the open containers as they were, or
/// attaches one row: its element and its fields are appended, and every node
/// that was there keeps its tag, text and type, and at most gains children
/// after the ones it had. A line that is not blank and attaches nothing adds
/// at least one issue; a line that adds no issue is blank or attaches its
/// row.
#[verifier::rlimit(40)]
pub proof fn law_ingest_tree(b: BuilderView, raw: Seq<char>, line_no: usize)
    requires
        builder_wf(b),
    ensures
        ({
            let r = spec_ingest(b, raw, line_no);
            &&& (r.nodes == b.nodes && r.stack == b.stack) || (r.nodes.len() > b.nodes.len()
                && extends(b.nodes, r.nodes))
            &&& (!is_blank(raw) && r.nodes.len() == b.nodes.len()) ==> r.issues.len()
                > b.issues.len()
            &&& r.issues.len() == b.issues.len() ==> (is_blank(raw) || r.nodes.len()
                > b.nodes.len())
        }),
{
    if !is_blank(raw) {
        match spec_parse_line(raw, line_no) {
            Err(e) => {},
            Ok((spec, values)) => {
                let b1 = if count_ok(spec, values.len()) {
                    b
                } else {
                    b.with_issue(issue(line_no, raw, count_message(spec, values.len())))
                };
                assert(builder_wf(b1));
                lemma_apply_cases(b1, spec, fit_values(spec, values), line_no, raw);
            },
        }
    }
}

/// Issues are only ever appended, at most one per line, each naming the
/// line's number and carrying its text.
pub proof fn law_ingest_issues(b: BuilderView, raw: Seq<char>, line_no: usize)
    ensures
        ({
            let r = spec_ingest(b, raw, line_no);
            &&& b.issues.len() <= r.issues.len() <= b.issues.len() + 1
            &&& r.issues.take(b.issues.len() as int) == b.issues
            &&& forall|i: int|
                b.issues.len() <= i < r.issues.len() ==> (#[trigger] r.issues[i]).line_no == line_no
                    && r.issues[i].line_context == raw
        }),
{
    let r = spec_ingest(b, raw, line_no);
    if !is_blank(raw) {
        match spec_parse_line(raw, line_no) {
            Err(e) => {},
            Ok((spec, values)) => {
                let b1 = if count_ok(spec, values.len()) {
                    b
                } else {
                    b.with_issue(issue(line_no, raw, count_message(spec, values.len())))
                };
                lemma_deepest_acceptor(b1.nodes, b1.stack, spec.tag_in, b1.stack.len() as int);
                assert(b1.issues.take(b.issues.len() as int) =~= b.issues);
            },
        }
    }
    assert(r.issues.take(b.issues.len() as int) =~= b.issues);
}

/// A line that attaches a row changes the state thus: the row's element and
/// fields are attached under the open container at stack position `p`,
/// which accepts the row; the containers above it are closed, and the row
/// is opened if it is a container.
pub open spec fn attached(
    b: BuilderView,
    r: BuilderView,
    p: int,
    spec: SpecView,
    vals: Seq<Seq<char>>,
) -> bool {
    &&& 0 <= p < b.stack.len()
    &&& node_accepts(b.nodes[b.stack[p] as int], spec.tag_in)
    &&& r.nodes == attach(b.nodes, b.stack[p] as int, spec, vals)
    &&& r.stack == if spec.is_container() {
        b.stack.take(p + 1).push(b.nodes.len() as usize)
    } else {
        b.stack.take(p + 1)
    }
}

/// A line leaves the nodes and the stack as they were, or attaches a row.
pub proof fn lemma_ingest_cases(b: BuilderView, raw: Seq<char>, line_no: usize)
    ensures
        ({
            let r = spec_ingest(b, raw, line_no);
            ||| r.nodes == b.nodes && r.stack == b.stack
            ||| exists|p: int, spec: SpecView, vals: Seq<Seq<char>>| #[trigger]
                attached(b, r, p, spec, vals)
        }),
{
    let r = spec_ingest(b, raw, line_no);
    if !is_blank(raw) {
        match spec_parse_line(raw, line_no) {
            Err(e) => {},
            Ok((spec, values)) => {
                lemma_deepest_acceptor(b.nodes, b.stack, spec.tag_in, b.stack.len() as int);
                match deepest_acceptor(b.nodes, b.stack, spec.tag_in, b.stack.len() as int) {
                    None => {},
                    Some(p) => {
                        let vals = fit_values(spec, values);
                        assert(attached(b, r, p, spec, vals));
                    },
                }
            },
        }
    }
}

/// Every line keeps the builder's invariant: the root stays first and stays
/// open at the bottom of the stack, child indices point forward, and the
/// stack holds only nodes that exist. (The nodes must fit in a `usize`.)
pub proof fn law_ingest_keeps_invariant(b: BuilderView, raw: Seq<char>, line_no: usize)
    requires
        builder_wf(b),
        spec_ingest(b, raw, line_no).nodes.len() <= usize::MAX,
    ensures
        builder_wf(spec_ingest(b, raw, line_no)),
{
    let r = spec_ingest(b, raw, line_no);
    lemma_ingest_cases(b, raw, line_no);
    if !(r.nodes == b.nodes && r.stack == b.stack) {
        let (p, spec, vals) = choose|p: int, spec: SpecView, vals: Seq<Seq<char>>|
            attached(b, r, p, spec, vals);
        let parent = b.stack[p] as int;
        lemma_attach_facts(b.nodes, parent, spec, vals, field_count(spec, vals));
        lemma_attach_forward(b.nodes, parent, spec, vals, field_count(spec, vals));
        assert forall|k: int| 0 <= k < r.stack.len() implies #[trigger] r.stack[k] < r.nodes.len() by {
            if k <= p {
                assert(r.stack[k] == b.stack[k]);
            }
        }
    }
}

/// The stack holds open containers only, each opened after the one below
/// it.
pub open spec fn stack_of_containers(b: BuilderView) -> bool {
    &&& forall|k: int|
        0 <= k < b.stack.len() ==> (b.nodes[#[trigger] b.stack[k] as int].spec matches Some(s)
            && s.is_container())
    &&& forall|k: int, l: int| 0 <= k < l < b.stack.len() ==> #[trigger] b.stack[k] < #[trigger] b.stack[l]
}

/// Each open container is the last child of the open container below it:
/// the stack is the path from the root to the row opened last.
pub open spec fn stack_is_path(b: BuilderView) -> bool {
    forall|i: int|
        0 < i < b.stack.len() ==> {
            &&& b.nodes[b.stack[i - 1] as int].children.len() > 0
            &&& b.nodes[b.stack[i - 1] as int].children.last() == #[trigger] b.stack[i]
        }
}

/// Node `j` is child number `k` of node `i`.
pub open spec fn child_at(nodes: Seq<NodeView>, i: int, k: int, j: int) -> bool {
    &&& 0 <= i < nodes.len()
    &&& 0 <= k < nodes[i].children.len()
    &&& nodes[i].children[k] == j
}

/// Node `j` is a child of a node that comes before it.
pub open spec fn has_parent(nodes: Seq<NodeView>, j: int) -> bool {
    exists|i: int, k: int| i < j && #[trigger] child_at(nodes, i, k, j)
}

/// The shape of the element tree. Node 0 is the root, `<people>`. Every
/// other node is a child of exactly one node, which comes before it, and
/// appears once in that node's list; children lists increase. A row's
/// element only holds rows that its type accepts. A node has text exactly
/// when it is a field, and fields have no children.
#[verifier::opaque]
pub open spec fn tree_shape(nodes: Seq<NodeView>) -> bool {
    &&& nodes.len() >= 1
    &&& nodes[0].tag == "people"@
    &&& nodes[0].spec == Some(root_view())
    &&& forall|j: int| 1 <= j < nodes.len() ==> #[trigger] has_parent(nodes, j)
    &&& forall|i1: int, k1: int, i2: int, k2: int, j: int|
        #[trigger] child_at(nodes, i1, k1, j) && #[trigger] child_at(nodes, i2, k2, j) ==> i1 == i2
            && k1 == k2
    &&& forall|i: int, k: int, l: int|
        0 <= i < nodes.len() && 0 <= k < l < nodes[i].children.len() ==> #[trigger] nodes[i].children[k]
            < #[trigger] nodes[i].children[l]
    &&& forall|i: int, k: int|
        0 <= i < nodes.len() && 0 <= k < nodes[i].children.len() ==> (nodes[i].spec matches Some(ps)
            && nodes[#[trigger] nodes[i].children[k] as int].spec matches Some(cs) ==> ps.accepts(
            cs.tag_in,
        ))
    &&& forall|i: int|
        0 <= i < nodes.len() ==> ((#[trigger] nodes[i]).text is Some <==> nodes[i].spec is None)
    &&& forall|i: int|
        0 <= i < nodes.len() && (#[trigger] nodes[i]).text is Some ==> nodes[i].children.len() == 0
}

/// Everything that holds of the builder's state between lines.
pub open spec fn builder_inv(b: BuilderView) -> bool {
    &&& builder_wf(b)
    &&& stack_of_containers(b)
    &&& stack_is_path(b)
    &&& tree_shape(b.nodes)
}

/// The builder starts with the root alone, open on the stack.
pub proof fn law_initial_inv()
    ensures
        builder_inv(initial_builder()),
{
    reveal_strlit("P");
    reveal(tree_shape);
    let b = initial_builder();
    assert(b.nodes[b.stack[0] as int].spec == Some(root_view()));
    assert(root_view().allowed_children.len() == 1);
    assert forall|i1: int, k1: int, i2: int, k2: int, j: int|
        #[trigger] child_at(b.nodes, i1, k1, j) && #[trigger] child_at(b.nodes, i2, k2, j) implies i1
        == i2 && k1 == k2 by {
        assert(b.nodes[i1].children.len() == 0);
    }
}

/// Attaching a row under a container that accepts it keeps the shape of
/// the tree.
#[verifier::rlimit(40)]
pub proof fn lemma_attach_shape(
    nodes: Seq<NodeView>,
    parent: int,
    spec: SpecView,
    vals: Seq<Seq<char>>,
    k: nat,
)
    requires
        tree_shape(nodes),
        forward(nodes),
        0 <= parent < nodes.len(),
        node_accepts(nodes[parent], spec.tag_in),
        k <= spec.field_names.len(),
        k <= vals.len(),
        nodes.len() + 1 + k <= usize::MAX,
    ensures
        tree_shape(attach_k(nodes, parent, spec, vals, k)),
{
    reveal(tree_shape);
    reveal(attach_k);
    let a = attach_k(nodes, parent, spec, vals, k);
    let c = nodes.len() as int;
    let n0 = nodes[parent].children.len() as int;
    let u = nodes.update(parent, add_child(nodes[parent], c as usize));
    let element = NodeView {
        tag: spec.tag_out,
        text: None,
        children: Seq::new(k, |i: int| (c + 1 + i) as usize),
        spec: Some(spec),
    };
    let fields = Seq::new(k, |i: int| field_node(spec, vals, i));
    assert(a == u.push(element) + fields);
    // Where each position of `a` stands, and what it holds.
    assert forall|i: int| 0 <= i < c && i != parent implies #[trigger] a[i] == nodes[i] by {
        assert(a[i] == u[i]);
    }
    assert(a[parent] == add_child(nodes[parent], c as usize)) by {
        assert(a[parent] == u[parent]);
    }
    assert(a[c] == element);
    assert forall|i: int| c < i < a.len() implies #[trigger] a[i] == fields[i - c - 1] by {}
    // Positions and the values they hold.
    assert forall|i: int, kk: int, j: int| #[trigger] child_at(a, i, kk, j) implies {
        ||| i < c && !(i == parent && kk == n0) && child_at(nodes, i, kk, j) && j < c
        ||| i == parent && kk == n0 && j == c
        ||| i == c && j == c + 1 + kk && 0 <= kk < k
    } by {
        if i < c && i != parent {
            assert(child_at(nodes, i, kk, j));
        } else if i == parent {
            if kk < n0 {
                assert(a[i].children[kk] == nodes[i].children[kk]);
                assert(child_at(nodes, i, kk, j));
            } else {
                assert(a[i].children[kk] == c);
            }
        } else if i == c {
        } else {
            assert(a[i].children.len() == 0);
        }
    }
    // Every node but the root has a parent before it.
    assert forall|j: int| 1 <= j < a.len() implies #[trigger] has_parent(a, j) by {
        if j < c {
            assert(has_parent(nodes, j));
            let (i, kk) = choose|i: int, kk: int| i < j && #[trigger] child_at(nodes, i, kk, j);
            if i == parent {
                assert(a[i].children[kk] == nodes[i].children[kk]);
            }
            assert(child_at(a, i, kk, j));
        } else if j == c {
            assert(child_at(a, parent, n0, j));
        } else {
            assert(child_at(a, c, j - c - 1, j));
        }
    }
    // A node appears in one place only.
    assert forall|i1: int, k1: int, i2: int, k2: int, j: int|
        #[trigger] child_at(a, i1, k1, j) && #[trigger] child_at(a, i2, k2, j) implies i1 == i2 && k1
        == k2 by {
        if j < c {
            assert(child_at(nodes, i1, k1, j) && child_at(nodes, i2, k2, j));
        }
    }
    // Children lists increase.
    assert forall|i: int, k1: int, l: int|
        0 <= i < a.len() && 0 <= k1 < l < a[i].children.len() implies #[trigger] a[i].children[k1]
        < #[trigger] a[i].children[l] by {
        assert(child_at(a, i, k1, a[i].children[k1] as int));
        assert(child_at(a, i, l, a[i].children[l] as int));
        if i == parent && l == n0 {
            assert(child_at(nodes, i, k1, a[i].children[k1] as int));
        } else if i < c {
            assert(a[i].children[k1] == nodes[i].children[k1]);
            assert(a[i].children[l] == nodes[i].children[l]);
        }
    }
    // A row's element holds only rows that its type accepts.
    assert forall|i: int, kk: int|
        0 <= i < a.len() && 0 <= kk < a[i].children.len() implies (a[i].spec matches Some(ps) && a[
        #[trigger] a[i].children[kk] as int].spec matches Some(cs) ==> ps.accepts(cs.tag_in)) by {
        let j = a[i].children[kk] as int;
        assert(child_at(a, i, kk, j));
        if i < c && !(i == parent && kk == n0) {
            assert(child_at(nodes, i, kk, j));
            assert(nodes[i].children[kk] == j);
            assert(a[i].spec == nodes[i].spec);
            assert(a[j].spec == nodes[j].spec);
        } else if i == parent {
            assert(a[j] == element);
        } else {
            assert(a[j] == fields[j - c - 1]);
        }
    }
    assert forall|i: int| 0 <= i < a.len() implies ((#[trigger] a[i]).text is Some <==> a[i].spec is None) by {
        if i < c && i != parent {
        } else if i == parent {
        } else if i == c {
        } else {
            assert(a[i] == fields[i - c - 1]);
        }
    }
    assert forall|i: int| 0 <= i < a.len() && (#[trigger] a[i]).text is Some implies a[i].children.len() == 0 by {
        if i < c && i != parent {
        } else if i == parent {
        } else if i == c {
        } else {
            assert(a[i] == fields[i - c - 1]);
        }
    }
    if parent == 0 {
        assert(a[0].tag == nodes[0].tag);
    } else {
        assert(a[0] == nodes[0]);
    }
}

/// Attaching a row keeps the stack a path of open containers.
#[verifier::rlimit(40)]
proof fn lemma_attached_stack(
    b: BuilderView,
    r: BuilderView,
    p: int,
    spec: SpecView,
    vals: Seq<Seq<char>>,
)
    requires
        builder_wf(b),
        stack_of_containers(b),
        stack_is_path(b),
        attached(b, r, p, spec, vals),
        r.nodes.len() <= usize::MAX,
    ensures
        stack_of_containers(r),
        stack_is_path(r),
{
    let parent = b.stack[p] as int;
    let c = b.nodes.len() as int;
    let k = field_count(spec, vals);
    lemma_attach_facts(b.nodes, parent, spec, vals, k);
    assert forall|kk: int| 0 <= kk < r.stack.len() implies (r.nodes[
        #[trigger] r.stack[kk] as int].spec matches Some(s) && s.is_container()) by {
        if kk <= p {
            assert(r.stack[kk] == b.stack[kk]);
            assert(b.stack[kk] < c);
        } else {
            assert(r.stack[kk] == c);
        }
    }
    assert forall|kk: int, l: int| 0 <= kk < l < r.stack.len() implies #[trigger] r.stack[kk]
        < #[trigger] r.stack[l] by {
        if l <= p {
            assert(r.stack[kk] == b.stack[kk] && r.stack[l] == b.stack[l]);
        } else {
            assert(r.stack[kk] == b.stack[kk]);
            assert(b.stack[kk] < c);
            assert(r.stack[l] == c);
        }
    }
    assert forall|i: int| 0 < i < r.stack.len() implies {
        &&& r.nodes[r.stack[i - 1] as int].children.len() > 0
        &&& r.nodes[r.stack[i - 1] as int].children.last() == #[trigger] r.stack[i]
    } by {
        if i <= p {
            assert(r.stack[i] == b.stack[i] && r.stack[i - 1] == b.stack[i - 1]);
            assert(b.stack[i - 1] < b.stack[p]);
            assert(b.stack[i - 1] < c);
            assert(r.nodes[b.stack[i - 1] as int] == b.nodes[b.stack[i - 1] as int]);
        } else {
            assert(r.stack[i] == c);
            assert(r.stack[i - 1] == b.stack[p]);
        }
    }
}

/// Every line keeps everything that holds of the builder's state between
/// lines: its invariant, a stack of open containers that is the path from
/// the root to the row opened last, and the shape of the tree (see
/// `tree_shape`). (The nodes must fit in a `usize`.)
#[verifier::rlimit(40)]
pub proof fn law_ingest_keeps_inv(b: BuilderView, raw: Seq<char>, line_no: usize)
    requires
        builder_inv(b),
        spec_ingest(b, raw, line_no).nodes.len() <= usize::MAX,
    ensures
        builder_inv(spec_ingest(b, raw, line_no)),
{
    let r = spec_ingest(b, raw, line_no);
    law_ingest_keeps_invariant(b, raw, line_no);
    lemma_ingest_cases(b, raw, line_no);
    if !(r.nodes == b.nodes && r.stack == b.stack) {
        let (p, spec, vals) = choose|p: int, spec: SpecView, vals: Seq<Seq<char>>|
            attached(b, r, p, spec, vals);
        let parent = b.stack[p] as int;
        let k = field_count(spec, vals);
        assert(r.nodes.len() == b.nodes.len() + 1 + k) by {
            lemma_attach_facts(b.nodes, parent, spec, vals, k);
        }
        lemma_attach_shape(b.nodes, parent, spec, vals, k);
        lemma_attached_stack(b, r, p, spec, vals);
    }
}

/// Issues come in the order of their lines: each names a line between 1 and
/// the number of lines, carries that line's text, and no issue comes before
/// one of an earlier line.
pub proof fn law_issues_follow_lines(lines: Seq<Seq<char>>)
    requires
        lines.len() <= usize::MAX,
    ensures
        ({
            let issues = parse_lines(lines).issues;
            &&& forall|i: int|
                0 <= i < issues.len() ==> 1 <= (#[trigger] issues[i]).line_no <= lines.len()
                    && issues[i].line_context == lines[issues[i].line_no - 1]
            &&& forall|i: int, j: int|
                0 <= i <= j < issues.len() ==> (#[trigger] issues[i]).line_no
                    <= (#[trigger] issues[j]).line_no
        }),
    decreases lines.len(),
{
    if lines.len() > 0 {
        let prev = lines.drop_last();
        law_issues_follow_lines(prev);
        let b = parse_lines(prev);
        law_ingest_issues(b, lines.last(), lines.len() as usize);
        let issues = parse_lines(lines).issues;
        assert forall|i: int| 0 <= i < issues.len() implies 1 <= (#[trigger] issues[i]).line_no
            <= lines.len() && issues[i].line_context == lines[issues[i].line_no - 1] by {
            if i < b.issues.len() {
                assert(issues[i] == issues.take(b.issues.len() as int)[i]);
                assert(issues[i] == b.issues[i]);
                assert(lines[issues[i].line_no - 1] == prev[issues[i].line_no - 1]);
            }
        }
        assert forall|i: int, j: int| 0 <= i <= j < issues.len() implies (#[trigger] issues[i]).line_no
            <= (#[trigger] issues[j]).line_no by {
            if j < b.issues.len() {
                assert(issues[i] == issues.take(b.issues.len() as int)[i]);
                assert(issues[j] == issues.take(b.issues.len() as int)[j]);
                assert(b.issues[i].line_no <= b.issues[j].line_no);
            } else if i < b.issues.len() {
                assert(issues[i] == issues.take(b.issues.len() as int)[i]);
                assert(b.issues[i].line_no <= prev.len());
            }
        }
    }
}

/// Escaping works character by character, so it distributes over joining.
pub proof fn lemma_escape_append(a: Seq<char>, b: Seq<char>)
    ensures
        escape(a + b) == escape(a) + escape(b),
    decreases b.len(),
{
    if b.len() == 0 {
        assert(a + b =~= a);
        assert(escape(a) + escape(b) =~= escape(a));
    } else {
        lemma_escape_append(a, b.drop_last());
        assert((a + b).drop_last() =~= a + b.drop_last());
        assert(escape(a + b) =~= escape(a) + escape(b));
    }
}

/// Escaped text reads back as the text: no two texts escape alike.
pub proof fn law_escape_roundtrip(s: Seq<char>)
    ensures
        unescape(escape(s)) == s,
    decreases s.len(),
{
    if s.len() > 0 {
        let c = s[0];
        let rest = s.drop_first();
        assert(s =~= seq![c] + rest);
        lemma_escape_append(seq![c], rest);
        assert(seq![c].drop_last() =~= Seq::<char>::empty());
        assert(escape(Seq::<char>::empty()) == Seq::<char>::empty());
        assert(escape(seq![c]) =~= escape_char(c));
        law_escape_roundtrip(rest);
        let t = escape(s);
        reveal_strlit("&amp;");
        reveal_strlit("&lt;");
        reveal_strlit("&gt;");
        assert(t == escape_char(c) + escape(rest));
        if c == '&' {
            assert(t.skip(5) =~= escape(rest));
            assert("&amp;"@.is_prefix_of(t));
            assert(unescape(t) == seq!['&'] + unescape(t.skip(5)));
        } else if c == '<' {
            assert(t.skip(4) =~= escape(rest));
            assert(t[1] == 'l');
            if "&amp;"@.is_prefix_of(t) {
                assert("&amp;"@[1] == t.subrange(0, 5)[1]);
            }
            assert("&lt;"@.is_prefix_of(t));
            assert(unescape(t) == seq!['<'] + unescape(t.skip(4)));
        } else if c == '>' {
            assert(t.skip(4) =~= escape(rest));
            assert(t[1] == 'g');
            if "&amp;"@.is_prefix_of(t) {
                assert("&amp;"@[1] == t.subrange(0, 5)[1]);
            }
            if "&lt;"@.is_prefix_of(t) {
                assert("&lt;"@[1] == t.subrange(0, 4)[1]);
            }
            assert("&gt;"@.is_prefix_of(t));
            assert(unescape(t) == seq!['>'] + unescape(t.skip(4)));
        } else {
            assert(t.skip(1) =~= escape(rest));
            assert(t[0] == c);
            if "&amp;"@.is_prefix_of(t) {
                assert("&amp;"@[0] == t.subrange(0, 5)[0]);
            }
            if "&lt;"@.is_prefix_of(t) {
                assert("&lt;"@[0] == t.subrange(0, 4)[0]);
            }
            if "&gt;"@.is_prefix_of(t) {
                assert("&gt;"@[0] == t.subrange(0, 4)[0]);
            }
            assert(unescape(t) == seq![c] + unescape(t.skip(1)));
        }
    }
}

/// Every `&` in escaped text begins one of the entities `&amp;`, `&lt;` or
/// `&gt;`.
pub proof fn law_escape_ampersands(s: Seq<char>)
    ensures
        forall|i: int|
            0 <= i < escape(s).len() && #[trigger] escape(s)[i] == '&' ==> {
                ||| "&amp;"@.is_prefix_of(escape(s).skip(i))
                ||| "&lt;"@.is_prefix_of(escape(s).skip(i))
                ||| "&gt;"@.is_prefix_of(escape(s).skip(i))
            },
    decreases s.len(),
{
    if s.len() > 0 {
        law_escape_ampersands(s.drop_last());
        reveal_strlit("&amp;");
        reveal_strlit("&lt;");
        reveal_strlit("&gt;");
        let a = escape(s.drop_last());
        let b = escape_char(s.last());
        let t = escape(s);
        assert(t == a + b);
        assert forall|i: int| 0 <= i < t.len() && #[trigger] t[i] == '&' implies {
            ||| "&amp;"@.is_prefix_of(t.skip(i))
            ||| "&lt;"@.is_prefix_of(t.skip(i))
            ||| "&gt;"@.is_prefix_of(t.skip(i))
        } by {
            if i < a.len() {
                assert(a[i] == '&');
                if "&amp;"@.is_prefix_of(a.skip(i)) {
                    assert(t.skip(i).subrange(0, 5) =~= a.skip(i).subrange(0, 5));
                } else if "&lt;"@.is_prefix_of(a.skip(i)) {
                    assert(t.skip(i).subrange(0, 4) =~= a.skip(i).subrange(0, 4));
                } else {
                    assert(t.skip(i).subrange(0, 4) =~= a.skip(i).subrange(0, 4));
                }
            } else {
                assert(t[i] == b[i - a.len()]);
                assert(t.skip(i) =~= b.skip(i - a.len()));
                if s.last() == '&' {
                    assert(b =~= "&amp;"@);
                    assert(i == a.len());
                } else if s.last() == '<' {
                    assert(b =~= "&lt;"@);
                    assert(i == a.len());
                } else if s.last() == '>' {
                    assert(b =~= "&gt;"@);
                    assert(i == a.len());
                } else {
                    assert(b[i - a.len()] != '&');
                }
            }
        }
    }
}

/// Escaped text holds no `<` and no `>`, so a field's text can neither open
/// nor close an element.
pub proof fn law_escape_no_brackets(s: Seq<char>)
    ensures
        !escape(s).contains('<'),
        !escape(s).contains('>'),
    decreases s.len(),
{
    if s.len() > 0 {
        law_escape_no_brackets(s.drop_last());
        reveal_strlit("&amp;");
        reveal_strlit("&lt;");
        reveal_strlit("&gt;");
        let a = escape(s.drop_last());
        let b = escape_char(s.last());
        assert(escape(s) == a + b);
        assert forall|i: int| 0 <= i < escape(s).len() implies escape(s)[i] != '<' && escape(s)[i]
            != '>' by {
            if i < a.len() {
                assert(escape(s)[i] == a[i]);
            } else {
                assert(escape(s)[i] == b[i - a.len()]);
            }
        }
    }
}

/// `s` with every `'\n'` written as `"\r\n"`.
pub open spec fn to_crlf(s: Seq<char>) -> Seq<char>
    decreases s.len(),
{
    if s.len() == 0 {
        s
    } else if s.last() == '\n' {
        to_crlf(s.drop_last()) + seq!['\r', '\n']
    } else {
        to_crlf(s.drop_last()).push(s.last())
    }
}

/// No `'\r'` stands right before a `'\n'` in `s`.
pub open spec fn no_cr_before_lf(s: Seq<char>) -> bool {
    forall|i: int| 0 < i < s.len() && #[trigger] s[i] == '\n' ==> s[i - 1] != '\r'
}

proof fn lemma_split_last(s: Seq<char>, sep: char)
    ensures
        split_on(s, sep).last().len() > 0 ==> s.len() > 0 && split_on(s, sep).last().last()
            == s.last() && s.last() != sep,
    decreases s.len(),
{
    crate::text::lemma_split_on_nonempty(s, sep);
    if s.len() > 0 {
        crate::text::lemma_split_on_nonempty(s.drop_last(), sep);
    }
}

proof fn lemma_split_crlf(s: Seq<char>)
    requires
        no_cr_before_lf(s),
    ensures
        ({
            let p = split_on(s, '\n');
            let q = split_on(to_crlf(s), '\n');
            &&& q.len() == p.len()
            &&& q.last() == p.last()
            &&& forall|i: int| 0 <= i < p.len() - 1 ==> #[trigger] q[i] == p[i].push('\r')
            &&& forall|i: int|
                0 <= i < p.len() - 1 ==> !(p[i].len() > 0 && #[trigger] p[i].last() == '\r')
        }),
    decreases s.len(),
{
    crate::text::lemma_split_on_nonempty(s, '\n');
    if s.len() > 0 {
        let s1 = s.drop_last();
        assert(no_cr_before_lf(s1)) by {
            assert forall|i: int| 0 < i < s1.len() && #[trigger] s1[i] == '\n' implies s1[i - 1]
                != '\r' by {
                assert(s[i] == s1[i] && s[i - 1] == s1[i - 1]);
            }
        }
        lemma_split_crlf(s1);
        crate::text::lemma_split_on_nonempty(s1, '\n');
        let p1 = split_on(s1, '\n');
        let q1 = split_on(to_crlf(s1), '\n');
        let p = split_on(s, '\n');
        let q = split_on(to_crlf(s), '\n');
        if s.last() == '\n' {
            let x = to_crlf(s1).push('\r');
            assert(to_crlf(s) =~= x.push('\n'));
            assert(x.push('\n').drop_last() =~= x);
            assert(x.drop_last() =~= to_crlf(s1));
            crate::text::lemma_split_on_nonempty(to_crlf(s1), '\n');
            assert(q == split_on(x, '\n').push(Seq::<char>::empty()));
            assert(split_on(x, '\n') == q1.update(q1.len() - 1, q1.last().push('\r')));
            assert(p == p1.push(Seq::<char>::empty()));
            lemma_split_last(s1, '\n');
            if p1.last().len() > 0 {
                assert(s[s.len() - 1] == '\n');
                assert(s1.last() == s[s.len() - 2]);
            }
            assert forall|i: int| 0 <= i < p.len() - 1 implies #[trigger] q[i] == p[i].push('\r') by {
                if i < p1.len() - 1 {
                    assert(q[i] == q1[i]);
                } else {
                    assert(q[i] == q1.last().push('\r'));
                }
            }
            assert forall|i: int| 0 <= i < p.len() - 1 implies !(p[i].len() > 0 && #[trigger] p[i].last()
                == '\r') by {
                if i < p1.len() - 1 {
                    assert(p[i] == p1[i]);
                } else {
                    assert(p[i] == p1.last());
                }
            }
        } else {
            assert(to_crlf(s).drop_last() =~= to_crlf(s1));
            assert(to_crlf(s).last() == s.last());
            assert(q == q1.update(q1.len() - 1, q1.last().push(s.last())));
            assert(p == p1.update(p1.len() - 1, p1.last().push(s.last())));
            assert forall|i: int| 0 <= i < p.len() - 1 implies #[trigger] q[i] == p[i].push('\r') by {
                assert(q[i] == q1[i] && p[i] == p1[i]);
            }
            assert forall|i: int| 0 <= i < p.len() - 1 implies !(p[i].len() > 0 && #[trigger] p[i].last()
                == '\r') by {
                assert(p[i] == p1[i]);
            }
        }
    }
}

/// Windows line endings read as Unix ones: writing every line break of a
/// text as `"\r\n"` gives the same lines, provided no line already ends
/// in a carriage return.
pub proof fn law_crlf_lines(s: Seq<char>)
    requires
        no_cr_before_lf(s),
    ensures
        lines_of(to_crlf(s)) == lines_of(s),
{
    lemma_split_crlf(s);
    crate::text::lemma_split_on_nonempty(s, '\n');
    let p = split_on(s, '\n');
    let q = split_on(to_crlf(s), '\n');
    assert forall|i: int| 0 <= i < p.len() - 1 implies strip_cr(#[trigger] q[i]) == strip_cr(p[i]) by {
        assert(q[i] == p[i].push('\r'));
        assert(q[i].drop_last() =~= p[i]);
    }
    let a = lines_of(to_crlf(s));
    let b = lines_of(s);
    assert(a.len() == b.len());
    assert forall|i: int| 0 <= i < a.len() implies a[i] == b[i] by {
        if i < p.len() - 1 {
            assert(a[i] == strip_cr(q[i]));
            assert(b[i] == strip_cr(p[i]));
            if p[i].len() > 0 {
                assert(p[i].last() != '\r');
            }
            assert(strip_cr(q[i]) == strip_cr(p[i]));
        } else {
            assert(a[i] == q[i]);
            assert(b[i] == p[i]);
        }
    }
    assert(a =~= b);
}

/// Indentation is two spaces per level of nesting.
pub proof fn law_indent(depth: nat)
    ensures
        indent(depth) == Seq::new(2 * depth, |i: int| ' '),
    decreases depth,
{
    reveal_strlit("  ");
    if depth > 0 {
        law_indent((depth - 1) as nat);
        assert(indent(depth) =~= Seq::new(2 * depth, |i: int| ' '));
    } else {
        assert(indent(depth) =~= Seq::new(2 * depth, |i: int| ' '));
    }
}

/// How a node is written, from the node alone, two spaces per level in:
/// - an element with neither children nor text as `<tag/>`;
/// - an element with text (a field) on one line as `<tag>`, its text
///   escaped, `</tag>`; what stands between the tags holds no `<` and reads
///   back as the text, character for character;
/// - any other element as its opening line, its children's XML one level
///   deeper, and its closing line.
pub proof fn law_render_node(nodes: Seq<NodeView>, idx: int, depth: nat, fuel: nat)
    requires
        0 <= idx < nodes.len(),
        fuel > 0,
    ensures
        ({
            let n = nodes[idx];
            let ind = Seq::new(2 * depth, |i: int| ' ');
            let out = render_node(nodes, idx, depth, fuel);
            &&& (n.children.len() == 0 && n.text is None) ==> out == ind + "<"@ + n.tag + "/>\n"@
            &&& n.text matches Some(t) ==> {
                &&& out == ind + "<"@ + n.tag + ">"@ + escape(t) + "</"@ + n.tag + ">\n"@
                &&& unescape(escape(t)) == t
                &&& !escape(t).contains('<')
            }
            &&& (n.children.len() > 0 && n.text is None) ==> out == ind + "<"@ + n.tag + ">\n"@
                + render_list(nodes, n.children, depth + 1, (fuel - 1) as nat) + ind + "</"@ + n.tag
                + ">\n"@
        }),
{
    law_indent(depth);
    if let Some(t) = nodes[idx].text {
        law_escape_roundtrip(t);
        law_escape_no_brackets(t);
    }
}

/// Children are written in the order of their list: the XML of a list of
/// nodes is that of its first part followed by that of the rest.
pub proof fn law_render_list(
    nodes: Seq<NodeView>,
    kids1: Seq<usize>,
    kids2: Seq<usize>,
    depth: nat,
    fuel: nat,
)
    ensures
        render_list(nodes, kids1 + kids2, depth, fuel) == render_list(nodes, kids1, depth, fuel)
            + render_list(nodes, kids2, depth, fuel),
    decreases kids2.len(),
{
    if kids2.len() == 0 {
        assert(kids1 + kids2 =~= kids1);
        assert(render_list(nodes, kids1, depth, fuel) + render_list(nodes, kids2, depth, fuel)
            =~= render_list(nodes, kids1, depth, fuel));
    } else {
        law_render_list(nodes, kids1, kids2.drop_last(), depth, fuel);
        assert((kids1 + kids2).drop_last() =~= kids1 + kids2.drop_last());
        assert((kids1 + kids2).last() == kids2.last());
        assert(render_list(nodes, kids1 + kids2, depth, fuel) =~= render_list(nodes, kids1, depth, fuel)
            + render_list(nodes, kids2, depth, fuel));
    }
}

/// The XML of a list of one node is that node's.
pub proof fn law_render_one(nodes: Seq<NodeView>, kid: usize, depth: nat, fuel: nat)
    ensures
        render_list(nodes, seq![kid], depth, fuel) == render_node(nodes, kid as int, depth, fuel),
{
    let one = seq![kid];
    assert(one.drop_last() =~= Seq::<usize>::empty());
    assert(render_list(nodes, Seq::<usize>::empty(), depth, fuel) == Seq::<char>::empty());
    assert(render_list(nodes, one, depth, fuel) =~= render_node(nodes, kid as int, depth, fuel));
}

} // verus!
