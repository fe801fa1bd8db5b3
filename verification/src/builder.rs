//! Building the element tree from rows, one line at a time, and collecting
//! an issue for every row that breaks the grammar.
use vstd::prelude::*;
use vstd::string::StringExecFns;

use crate::grammar::{lookup_spec, root_spec, spec_lookup, root_view, Spec, SpecView};
use crate::text::{
    char_count_fits, lemma_split_on_count, lines_of, push_char, strip_cr, debug_quoted, debug_str, decimal, is_blank, is_blank_str, lemma_split_on_len,
    lemma_split_on_nonempty, push_decimal, split_on, split_str, to_owned_string, views,
};
use crate::laws::{builder_inv, law_initial_inv, law_ingest_keeps_inv, tree_shape};
use crate::tree::{forward, lemma_forward_renderable, nodes_view, renderable, Node, NodeView, Tree};

verus! {

/// A problem found in one line of the input: the line's number (from 1),
/// the line itself, and what is wrong with it.
#[derive(Debug, Clone, PartialEq, Eq)]
pub struct ParseError {
    pub line_no: usize,
    pub line_context: String,
    pub message: String,
}

/// A `ParseError` with its strings taken as character sequences.
pub struct ParseErrorView {
    pub line_no: usize,
    pub line_context: Seq<char>,
    pub message: Seq<char>,
}

impl View for ParseError {
    type V = ParseErrorView;

    open spec fn view(&self) -> ParseErrorView {
        ParseErrorView {
            line_no: self.line_no,
            line_context: self.line_context@,
            message: self.message@,
        }
    }
}

/// The issue for line `line_no`, reading `raw`, with `message`.
pub open spec fn issue(line_no: usize, raw: Seq<char>, message: Seq<char>) -> ParseErrorView {
    ParseErrorView { line_no, line_context: raw, message }
}

/// How a `ParseError` reads in a report: the message, then `line N: ` and
/// the line, each followed by a line break.
pub open spec fn error_text(e: ParseErrorView) -> Seq<char> {
    e.message + "\nline "@ + decimal(e.line_no as nat) + ": "@ + e.line_context + "\n"@
}

impl ParseError {
    /// The issue for line `line_no`, which reads `line_context`.
    pub fn new(line_no: usize, line_context: &str, message: &str) -> (r: ParseError)
        ensures
            r@ == issue(line_no, line_context@, message@),
    {
        ParseError {
            line_no,
            line_context: to_owned_string(line_context),
            message: to_owned_string(message),
        }
    }

    /// The issue as a report shows it: the message, then `line N: ` and the
    /// line, each followed by a line break.
    pub fn to_string(&self) -> (r: String)
        ensures
            r@ == error_text(self@),
    {
        let mut r = to_owned_string(self.message.as_str());
        r.append("\nline ");
        push_decimal(&mut r, self.line_no);
        r.append(": ");
        r.append(self.line_context.as_str());
        r.append("\n");
        proof {
            assert(r@ =~= error_text(self@));
        }
        r
    }
}

/// Every issue found while building a tree, in the order of the lines.
#[derive(Debug, Clone)]
pub struct ParseReport {
    pub issues: Vec<ParseError>,
}

/// The views of a list of issues.
pub open spec fn issues_view(v: Seq<ParseError>) -> Seq<ParseErrorView> {
    v.map_values(|e: ParseError| e@)
}

impl View for ParseReport {
    type V = Seq<ParseErrorView>;

    open spec fn view(&self) -> Seq<ParseErrorView> {
        issues_view(self.issues@)
    }
}

/// The state of a `TreeBuilder`: the nodes so far, the stack of open
/// containers (indices of nodes, the root at the bottom), and the issues.
pub struct BuilderView {
    pub nodes: Seq<NodeView>,
    pub stack: Seq<usize>,
    pub issues: Seq<ParseErrorView>,
}

impl BuilderView {
    /// The same state with one more issue.
    pub open spec fn with_issue(self, e: ParseErrorView) -> BuilderView {
        BuilderView { nodes: self.nodes, stack: self.stack, issues: self.issues.push(e) }
    }
}

/// The message for a row of type `spec` with `got` fields where the type
/// wants another number: `X expects N fields, got M`, or
/// `X expects MIN..=MAX fields, got M` where the type has optional fields.
pub open spec fn count_message(spec: SpecView, got: nat) -> Seq<char> {
    let max = spec.field_names.len();
    let range = if spec.min_fields == max {
        decimal(max)
    } else {
        decimal(spec.min_fields) + "..="@ + decimal(max)
    };
    spec.tag_in + " expects "@ + range + " fields, got "@ + decimal(got)
}

/// The message for a line without any `|`.
pub open spec fn malformed_message() -> Seq<char> {
    "malformed row"@
}

/// The message for a row whose tag the grammar does not know.
pub open spec fn unknown_tag_message(tag: Seq<char>) -> Seq<char> {
    "unknown tag "@ + debug_quoted(tag)
}

/// The message for a row that no open container accepts.
pub open spec fn unattached_message(spec: SpecView) -> Seq<char> {
    spec.tag_in + " cannot be attached here (no enclosing container accepts it)"@
}

/// A line splits at each `|` into its tag and its values. It must hold a
/// `|`, and its tag must be one that the grammar knows.
pub open spec fn spec_parse_line(raw: Seq<char>, line_no: usize) -> Result<
    (SpecView, Seq<Seq<char>>),
    ParseErrorView,
> {
    if !raw.contains('|') {
        Err(issue(line_no, raw, malformed_message()))
    } else {
        let parts = split_on(raw, '|');
        match spec_lookup(parts[0]) {
            None => Err(issue(line_no, raw, unknown_tag_message(parts[0]))),
            Some(s) => Ok((s, parts.drop_first())),
        }
    }
}

/// Whether a row of type `spec` may have `got` fields.
pub open spec fn count_ok(spec: SpecView, got: nat) -> bool {
    spec.min_fields <= got <= spec.field_names.len()
}

/// `values` with empty values added at the end up to `n` of them.
pub open spec fn pad_to(values: Seq<Seq<char>>, n: nat) -> Seq<Seq<char>> {
    if values.len() < n {
        values + Seq::new((n - values.len()) as nat, |i: int| Seq::<char>::empty())
    } else {
        values
    }
}

/// The values a row keeps: beyond the type's field names they are dropped;
/// short of the required number, empty ones fill up every field.
pub open spec fn fit_values(spec: SpecView, values: Seq<Seq<char>>) -> Seq<Seq<char>> {
    let max = spec.field_names.len();
    if values.len() > max {
        values.take(max as int)
    } else if values.len() < spec.min_fields {
        pad_to(values, max)
    } else {
        values
    }
}

/// Whether node `n` is a container that accepts rows tagged `tag`.
pub open spec fn node_accepts(n: NodeView, tag: Seq<char>) -> bool {
    n.spec matches Some(s) && s.accepts(tag)
}

/// The highest position below `k` in `stack` whose node accepts `tag`.
pub open spec fn deepest_acceptor(
    nodes: Seq<NodeView>,
    stack: Seq<usize>,
    tag: Seq<char>,
    k: int,
) -> Option<int>
    decreases k,
{
    if k <= 0 {
        None
    } else if node_accepts(nodes[stack[k - 1] as int], tag) {
        Some(k - 1)
    } else {
        deepest_acceptor(nodes, stack, tag, k - 1)
    }
}

/// The deepest acceptor is the highest position below `k` whose node
/// accepts the tag: no position between it and `k` does.
pub proof fn lemma_deepest_acceptor(nodes: Seq<NodeView>, stack: Seq<usize>, tag: Seq<char>, k: int)
    ensures
        match deepest_acceptor(nodes, stack, tag, k) {
            Some(p) => {
                &&& 0 <= p < k
                &&& node_accepts(nodes[stack[p] as int], tag)
                &&& forall|q: int| p < q < k ==> !node_accepts(#[trigger] nodes[stack[q] as int], tag)
            },
            None => forall|q: int| 0 <= q < k ==> !node_accepts(#[trigger] nodes[stack[q] as int], tag),
        },
    decreases k,
{
    if k > 0 {
        lemma_deepest_acceptor(nodes, stack, tag, k - 1);
    }
}

/// `node` with one more child, `c`, at the end.
pub open spec fn add_child(node: NodeView, c: usize) -> NodeView {
    NodeView { tag: node.tag, text: node.text, children: node.children.push(c), spec: node.spec }
}

/// The number of fields a row of type `spec` holding `values` gets.
pub open spec fn field_count(spec: SpecView, values: Seq<Seq<char>>) -> nat {
    if spec.field_names.len() <= values.len() {
        spec.field_names.len()
    } else {
        values.len()
    }
}

/// The field element for the `i`-th value of a row.
pub open spec fn field_node(spec: SpecView, values: Seq<Seq<char>>, i: int) -> NodeView {
    NodeView { tag: spec.field_names[i], text: Some(values[i]), children: seq![], spec: None }
}

/// The nodes after a row of type `spec` is attached under `parent` with
/// the first `k` of its fields: its element is appended as the last child
/// of `parent`, followed by the field elements, in order, as its children.
#[verifier::opaque]
pub open spec fn attach_k(
    nodes: Seq<NodeView>,
    parent: int,
    spec: SpecView,
    values: Seq<Seq<char>>,
    k: nat,
) -> Seq<NodeView> {
    let c = nodes.len();
    let element = NodeView {
        tag: spec.tag_out,
        text: None,
        children: Seq::new(k, |i: int| (c + 1 + i) as usize),
        spec: Some(spec),
    };
    nodes.update(parent, add_child(nodes[parent], c as usize)).push(element) + Seq::new(
        k,
        |i: int| field_node(spec, values, i),
    )
}

/// What attaching a row does to each position of the node list: nodes
/// before the new element stay as they were, except `parent`, which gains
/// the element as its last child; then come the element and its fields.
pub proof fn lemma_attach_facts(
    nodes: Seq<NodeView>,
    parent: int,
    spec: SpecView,
    values: Seq<Seq<char>>,
    k: nat,
)
    requires
        0 <= parent < nodes.len(),
    ensures
        ({
            let a = attach_k(nodes, parent, spec, values, k);
            let c = nodes.len() as int;
            &&& a.len() == c + 1 + k
            &&& forall|i: int| 0 <= i < c && i != parent ==> #[trigger] a[i] == nodes[i]
            &&& a[parent] == add_child(nodes[parent], c as usize)
            &&& a[c].tag == spec.tag_out
            &&& a[c].text is None
            &&& a[c].spec == Some(spec)
            &&& a[c].children == Seq::new(k, |i: int| (c + 1 + i) as usize)
            &&& forall|i: int| c < i < a.len() ==> #[trigger] a[i] == field_node(spec, values, i - c - 1)
        }),
{
    reveal(attach_k);
}

/// The nodes after a row is attached under `parent` with all its fields.
pub open spec fn attach(
    nodes: Seq<NodeView>,
    parent: int,
    spec: SpecView,
    values: Seq<Seq<char>>,
) -> Seq<NodeView> {
    attach_k(nodes, parent, spec, values, field_count(spec, values))
}

/// Attaching a row: the deepest open container that accepts the row's tag
/// becomes its parent, and every container above it is closed. A row that
/// is itself a container becomes the deepest open one. Where no open
/// container accepts the row, nothing changes but the issue it adds.
pub open spec fn spec_apply(
    b: BuilderView,
    spec: SpecView,
    values: Seq<Seq<char>>,
    line_no: usize,
    raw: Seq<char>,
) -> BuilderView {
    match deepest_acceptor(b.nodes, b.stack, spec.tag_in, b.stack.len() as int) {
        None => b.with_issue(issue(line_no, raw, unattached_message(spec))),
        Some(p) => {
            let kept = b.stack.take(p + 1);
            BuilderView {
                nodes: attach(b.nodes, b.stack[p] as int, spec, values),
                stack: if spec.is_container() {
                    kept.push(b.nodes.len() as usize)
                } else {
                    kept
                },
                issues: b.issues,
            }
        },
    }
}

/// One line of input, which adds at most one issue. A blank line changes
/// nothing. A line that does not parse adds its issue and changes nothing
/// else. A row that no open container accepts adds that issue and is
/// dropped. Otherwise a row whose field count is out of range adds that
/// issue and is kept with its values fitted (see `fit_values`); then it is
/// attached (see `spec_apply`).
pub open spec fn spec_ingest(b: BuilderView, raw: Seq<char>, line_no: usize) -> BuilderView {
    if is_blank(raw) {
        b
    } else {
        match spec_parse_line(raw, line_no) {
            Err(e) => b.with_issue(e),
            Ok((spec, values)) => {
                if deepest_acceptor(b.nodes, b.stack, spec.tag_in, b.stack.len() as int) is None {
                    b.with_issue(issue(line_no, raw, unattached_message(spec)))
                } else {
                    let b1 = if count_ok(spec, values.len()) {
                        b
                    } else {
                        b.with_issue(issue(line_no, raw, count_message(spec, values.len())))
                    };
                    spec_apply(b1, spec, fit_values(spec, values), line_no, raw)
                }
            },
        }
    }
}

/// The root element alone, open, with no issues.
pub open spec fn initial_builder() -> BuilderView {
    BuilderView {
        nodes: seq![
            NodeView { tag: "people"@, text: None, children: seq![], spec: Some(root_view()) },
        ],
        stack: seq![0usize],
        issues: seq![],
    }
}

/// The state after the given lines, numbered from 1.
pub open spec fn parse_lines(lines: Seq<Seq<char>>) -> BuilderView
    decreases lines.len(),
{
    if lines.len() == 0 {
        initial_builder()
    } else {
        spec_ingest(parse_lines(lines.drop_last()), lines.last(), lines.len() as usize)
    }
}

/// The state after every line of `text` (see `lines_of`).
pub open spec fn spec_parse(text: Seq<char>) -> BuilderView {
    parse_lines(lines_of(text))
}

/// Attaching a row keeps child indices pointing forward.
pub proof fn lemma_attach_forward(
    nodes: Seq<NodeView>,
    parent: int,
    spec: SpecView,
    values: Seq<Seq<char>>,
    k: nat,
)
    requires
        forward(nodes),
        0 <= parent < nodes.len(),
        nodes.len() + 1 + k <= usize::MAX,
    ensures
        forward(attach_k(nodes, parent, spec, values, k)),
        attach_k(nodes, parent, spec, values, k).len() == nodes.len() + 1 + k,
{
    reveal(attach_k);
    let a = attach_k(nodes, parent, spec, values, k);
    let c = nodes.len() as int;
    let u = nodes.update(parent, add_child(nodes[parent], c as usize));
    let element = NodeView {
        tag: spec.tag_out,
        text: None,
        children: Seq::new(k, |i: int| (c + 1 + i) as usize),
        spec: Some(spec),
    };
    let fields = Seq::new(k, |i: int| field_node(spec, values, i));
    assert(a == u.push(element) + fields);
    assert forall|i: int, j: int|
        0 <= i < a.len() && 0 <= j < a[i].children.len() implies i < #[trigger] a[i].children[j]
        < a.len() by {
        if i < c {
            assert(a[i] == u[i]);
            if i != parent {
                assert(u[i] == nodes[i]);
                assert(nodes[i].children[j] == a[i].children[j]);
            } else {
                if j < nodes[parent].children.len() {
                    assert(a[i].children[j] == nodes[parent].children[j]);
                } else {
                    assert(a[i].children[j] == c);
                }
            }
        } else if i == c {
            assert(a[i] == element);
            assert(a[i].children[j] == (c + 1 + j) as usize);
        } else {
            assert(a[i] == fields[i - c - 1]);
            assert(a[i].children.len() == 0);
        }
    }
}

/// Attaching a row, or refusing it, keeps the builder's invariant.
pub proof fn lemma_apply_wf(
    b: BuilderView,
    spec: SpecView,
    values: Seq<Seq<char>>,
    line_no: usize,
    raw: Seq<char>,
)
    requires
        builder_wf(b),
        b.nodes.len() + 1 + field_count(spec, values) <= usize::MAX,
    ensures
        builder_wf(spec_apply(b, spec, values, line_no, raw)),
{
    lemma_deepest_acceptor(b.nodes, b.stack, spec.tag_in, b.stack.len() as int);
    match deepest_acceptor(b.nodes, b.stack, spec.tag_in, b.stack.len() as int) {
        None => {},
        Some(p) => {
            let parent = b.stack[p] as int;
            lemma_attach_forward(b.nodes, parent, spec, values, field_count(spec, values));
            let r = spec_apply(b, spec, values, line_no, raw);
            assert forall|k: int| 0 <= k < r.stack.len() implies #[trigger] r.stack[k] < r.nodes.len() by {
                if k <= p {
                    assert(r.stack[k] == b.stack[k]);
                }
            }
        },
    }
}

/// The builder's invariant: a root node, child indices that point forward,
/// and a stack of node indices with the root at its bottom.
pub open spec fn builder_wf(b: BuilderView) -> bool {
    &&& b.nodes.len() >= 1
    &&& forward(b.nodes)
    &&& b.stack.len() >= 1
    &&& b.stack[0] == 0
    &&& forall|k: int| 0 <= k < b.stack.len() ==> #[trigger] b.stack[k] < b.nodes.len()
}

/// What a `TreeBuilder` holds: the nodes, the stack of open containers
/// (indices of nodes), and the issues.
struct BuilderState {
    nodes: Vec<Node>,
    stack: Vec<usize>,
    issues: Vec<ParseError>,
}

impl View for BuilderState {
    type V = BuilderView;

    closed spec fn view(&self) -> BuilderView {
        BuilderView {
            nodes: nodes_view(self.nodes@),
            stack: self.stack@,
            issues: issues_view(self.issues@),
        }
    }
}

impl BuilderState {
    /// The builder's invariant holds.
    spec fn wf(&self) -> bool {
        builder_wf(self@)
    }

    /// A builder holding only the root element, which is open.
    fn new() -> (r: BuilderState)
        ensures
            r@ == initial_builder(),
            r.wf(),
    {
        let root = root_spec();
        let mut nodes: Vec<Node> = Vec::new();
        nodes.push(Node { tag: root.tag_out, text: None, children: Vec::new(), spec: Some(root) });
        let mut stack: Vec<usize> = Vec::new();
        stack.push(0);
        let r = BuilderState { nodes, stack, issues: Vec::new() };
        proof {
            assert(r@.nodes =~= initial_builder().nodes);
            assert(r@.issues =~= initial_builder().issues);
            assert(r@.stack =~= initial_builder().stack);
        }
        r
    }

    /// Takes in line `line_no`, which reads `raw`.
    fn ingest_line(&mut self, raw: &str, line_no: usize)
        requires
            old(self).wf(),
        ensures
            final(self).wf(),
            final(self)@ == spec_ingest(old(self)@, raw@, line_no),
    {
        if is_blank_str(raw) {
            return ;
        }
        let (spec, mut values) = match Self::parse_line(raw, line_no) {
            Err(e) => {
                self.push_issue(e);
                return ;
            },
            Ok(x) => x,
        };
        if self.find_acceptor(spec.tag_in).is_none() {
            let e = Self::unattached_issue(spec, line_no, raw);
            self.push_issue(e);
            return ;
        }
        let ghost got_values = views(values@);
        let max = spec.field_names.len();
        let got = values.len();
        if got > max {
            values.truncate(max);
            let e = Self::range_issue(spec, got, line_no, raw);
            self.push_issue(e);
        } else if got < spec.min_fields {
            while values.len() < max
                invariant
                    views(values@) == pad_to(got_values, values@.len() as nat),
                    got_values.len() == got,
                    got <= values@.len(),
                    values@.len() <= max || values@.len() == got,
                    max == spec@.field_names.len(),
                decreases max - values@.len(),
            {
                let ghost prev = views(values@);
                let empty = String::new();
                values.push(empty);
                proof {
                    assert(views(values@) =~= prev.push(Seq::<char>::empty()));
                    assert(views(values@) =~= pad_to(got_values, values@.len() as nat));
                }
            }
            let e = Self::range_issue(spec, got, line_no, raw);
            self.push_issue(e);
        }
        proof {
            assert(views(values@) =~= fit_values(spec@, got_values));
        }
        match self.apply(spec, &values, line_no, raw) {
            Err(e) => self.push_issue(e),
            Ok(()) => {},
        }
    }

    fn push_issue(&mut self, e: ParseError)
        requires
            old(self).wf(),
        ensures
            final(self).wf(),
            final(self)@ == old(self)@.with_issue(e@),
    {
        self.issues.push(e);
        proof {
            assert(self@.issues =~= old(self)@.issues.push(e@));
        }
    }

    fn unattached_issue(spec: &Spec, line_no: usize, raw: &str) -> (r: ParseError)
        ensures
            r@ == issue(line_no, raw@, unattached_message(spec@)),
    {
        let mut message = to_owned_string(spec.tag_in);
        message.append(" cannot be attached here (no enclosing container accepts it)");
        ParseError { line_no, line_context: to_owned_string(raw), message }
    }

    fn range_issue(spec: &Spec, got: usize, line_no: usize, raw: &str) -> (r: ParseError)
        ensures
            r@ == issue(line_no, raw@, count_message(spec@, got as nat)),
    {
        let max = spec.field_names.len();
        let mut message = to_owned_string(spec.tag_in);
        message.append(" expects ");
        if spec.min_fields == max {
            push_decimal(&mut message, max);
        } else {
            push_decimal(&mut message, spec.min_fields);
            message.append("..=");
            push_decimal(&mut message, max);
        }
        message.append(" fields, got ");
        push_decimal(&mut message, got);
        proof {
            assert(message@ =~= count_message(spec@, got as nat));
        }
        ParseError { line_no, line_context: to_owned_string(raw), message }
    }

    fn parse_line(raw: &str, line_no: usize) -> (r: Result<(&'static Spec, Vec<String>), ParseError>)
        ensures
            match r {
                Ok((s, values)) => spec_parse_line(raw@, line_no) == Ok::<_, ParseErrorView>(
                    (s@, views(values@)),
                ),
                Err(e) => spec_parse_line(raw@, line_no) == Err::<(SpecView, Seq<Seq<char>>), _>(
                    e@,
                ),
            },
    {
        let mut parts = split_str(raw, '|');
        proof {
            lemma_split_on_len(raw@, '|');
            lemma_split_on_nonempty(raw@, '|');
        }
        if parts.len() <= 1 {
            let message = to_owned_string("malformed row");
            return Err(ParseError { line_no, line_context: to_owned_string(raw), message });
        }
        let tag = parts.remove(0);
        proof {
            assert(views(parts@) =~= split_on(raw@, '|').drop_first());
        }
        match lookup_spec(tag.as_str()) {
            None => {
                let mut message = to_owned_string("unknown tag ");
                let quoted = debug_str(tag.as_str());
                message.append(quoted.as_str());
                Err(ParseError { line_no, line_context: to_owned_string(raw), message })
            },
            Some(s) => Ok((s, parts)),
        }
    }

    fn find_acceptor(&self, tag: &str) -> (r: Option<usize>)
        requires
            self.wf(),
        ensures
            match r {
                Some(p) => deepest_acceptor(self@.nodes, self@.stack, tag@, self@.stack.len() as int)
                    == Some(p as int),
                None => deepest_acceptor(self@.nodes, self@.stack, tag@, self@.stack.len() as int)
                    is None,
            },
    {
        let mut k = self.stack.len();
        while k > 0
            invariant
                self.wf(),
                k <= self.stack@.len(),
                deepest_acceptor(self@.nodes, self@.stack, tag@, self@.stack.len() as int)
                    == deepest_acceptor(self@.nodes, self@.stack, tag@, k as int),
            decreases k,
        {
            let idx = self.stack[k - 1];
            let node = &self.nodes[idx];
            proof {
                assert(self@.stack[k - 1] == idx);
                assert(self@.nodes[idx as int] == node@);
            }
            let accepts = match node.spec {
                Some(s) => s.accepts(tag),
                None => false,
            };
            if accepts {
                return Some(k - 1);
            }
            k = k - 1;
        }
        None
    }

    fn apply(&mut self, spec: &'static Spec, values: &Vec<String>, line_no: usize, raw: &str) -> (r:
        Result<(), ParseError>)
        requires
            old(self).wf(),
        ensures
            final(self).wf(),
            match r {
                Ok(()) => {
                    &&& deepest_acceptor(
                        old(self)@.nodes,
                        old(self)@.stack,
                        spec@.tag_in,
                        old(self)@.stack.len() as int,
                    ) is Some
                    &&& final(self)@ == spec_apply(
                        old(self)@,
                        spec@,
                        views(values@),
                        line_no,
                        raw@,
                    )
                },
                Err(e) => {
                    &&& deepest_acceptor(
                        old(self)@.nodes,
                        old(self)@.stack,
                        spec@.tag_in,
                        old(self)@.stack.len() as int,
                    ) is None
                    &&& e@ == issue(line_no, raw@, unattached_message(spec@))
                    &&& final(self)@ == old(self)@
                },
            },
    {
        let pos = match self.find_acceptor(spec.tag_in) {
            None => {
                return Err(Self::unattached_issue(spec, line_no, raw));
            },
            Some(p) => p,
        };
        let ghost b0 = self@;
        proof {
            lemma_deepest_acceptor(b0.nodes, b0.stack, spec@.tag_in, b0.stack.len() as int);
        }
        // The stack's length is a `usize`, so `pos + 1` cannot overflow.
        let _depth = self.stack.len();
        self.stack.truncate(pos + 1);
        let parent = self.stack[pos];
        proof {
            assert(parent == b0.stack[pos as int]);
        }
        let new_idx = self.push_with_fields(parent, spec, values);
        // The node count is a `usize`: every new index fits.
        let _total = self.nodes.len();
        proof {
            assert(self@.nodes.len() == self.nodes@.len());
            lemma_attach_facts(b0.nodes, parent as int, spec@, views(values@), field_count(spec@, views(values@)));
            lemma_apply_wf(b0, spec@, views(values@), line_no, raw@);
        }
        proof {
            assert(self@.stack =~= b0.stack.take(pos + 1));
        }
        if spec.is_container() {
            self.stack.push(new_idx);
        }
        proof {
            assert(self@ == spec_apply(b0, spec@, views(values@), line_no, raw@));
        }
        Ok(())
    }

    fn push(&mut self, parent: usize, node: Node) -> (r: usize)
        requires
            parent < old(self)@.nodes.len(),
        ensures
            r == old(self)@.nodes.len(),
            final(self)@.nodes == old(self)@.nodes.push(node@).update(
                parent as int,
                add_child(old(self)@.nodes[parent as int], r),
            ),
            final(self)@.stack == old(self)@.stack,
            final(self)@.issues == old(self)@.issues,
    {
        let idx = self.nodes.len();
        self.nodes.push(node);
        self.nodes[parent].children.push(idx);
        proof {
            assert(self@.nodes =~= old(self)@.nodes.push(node@).update(
                parent as int,
                add_child(old(self)@.nodes[parent as int], idx),
            ));
        }
        idx
    }

    fn push_with_fields(&mut self, parent: usize, spec: &'static Spec, values: &Vec<String>) -> (r:
        usize)
        requires
            parent < old(self)@.nodes.len(),
        ensures
            r == old(self)@.nodes.len(),
            final(self)@.nodes == attach(old(self)@.nodes, parent as int, spec@, views(values@)),
            final(self)@.stack == old(self)@.stack,
            final(self)@.issues == old(self)@.issues,
    {
        let ghost old_nodes = self@.nodes;
        let ghost vals = views(values@);
        proof {
            reveal(attach_k);
        }
        let c = self.push(
            parent,
            Node { tag: spec.tag_out, text: None, children: Vec::new(), spec: Some(spec) },
        );
        let n_fields = spec.field_names.len();
        let k = if n_fields <= values.len() {
            n_fields
        } else {
            values.len()
        };
        proof {
            let a0 = attach_k(old_nodes, parent as int, spec@, vals, 0);
            assert(a0[c as int].children =~= Seq::<usize>::empty());
            assert(self@.nodes =~= a0);
        }
        let mut i: usize = 0;
        while i < k
            invariant
                c == old_nodes.len(),
                parent < c,
                k == field_count(spec@, vals),
                k <= values@.len(),
                k <= spec.field_names@.len(),
                vals == views(values@),
                i <= k,
                self@.nodes == attach_k(old_nodes, parent as int, spec@, vals, i as nat),
                self@.stack == old(self)@.stack,
                self@.issues == old(self)@.issues,
            decreases k - i,
        {
            let text = values[i].clone();
            let field = Node { tag: spec.field_names[i], text: Some(text), children: Vec::new(), spec: None };
            proof {
                reveal(attach_k);
                assert(field@.children =~= Seq::<usize>::empty());
                assert(field@ == field_node(spec@, vals, i as int));
            }
            let f = self.push(c, field);
            i = i + 1;
            proof {
                reveal(attach_k);
                let a = attach_k(old_nodes, parent as int, spec@, vals, i as nat);
                let b = attach_k(old_nodes, parent as int, spec@, vals, (i - 1) as nat);
                assert(f == c + i);
                assert(a[c as int].children =~= b[c as int].children.push(f));
                assert(self@.nodes =~= a);
            }
        }
        c
    }

    /// Hands out the tree and the report of issues.
    fn finish(self) -> (r: (Tree, ParseReport))
        requires
            self.wf(),
        ensures
            r.0@ == self@.nodes,
            r.1@ == self@.issues,
            renderable(r.0@),
    {
        proof {
            lemma_forward_renderable(self@.nodes);
        }
        (Tree { nodes: self.nodes }, ParseReport { issues: self.issues })
    }
}

/// Builds the element tree from rows fed in one at a time.
pub struct TreeBuilder {
    state: BuilderState,
}

impl TreeBuilder {
    /// Everything that holds of the state between lines holds at all times.
    #[verifier::type_invariant]
    spec fn state_wf(self) -> bool {
        builder_inv(self.state@)
    }
}

impl View for TreeBuilder {
    type V = BuilderView;

    closed spec fn view(&self) -> BuilderView {
        self.state@
    }
}

impl TreeBuilder {
    /// A builder holding only the root element, which is open.
    pub fn new() -> (r: TreeBuilder)
        ensures
            r@ == initial_builder(),
    {
        proof {
            law_initial_inv();
        }
        TreeBuilder { state: BuilderState::new() }
    }

    /// Takes in line `line_no`, which reads `raw`.
    pub fn ingest_line(&mut self, raw: &str, line_no: usize)
        ensures
            final(self)@ == spec_ingest(old(self)@, raw@, line_no),
    {
        proof {
            use_type_invariant(&*self);
        }
        let mut state = BuilderState::new();
        proof {
            law_initial_inv();
        }
        std::mem::swap(&mut state, &mut self.state);
        state.ingest_line(raw, line_no);
        // The node count is a `usize`.
        let _count = state.nodes.len();
        proof {
            law_ingest_keeps_inv(old(self)@, raw@, line_no);
        }
        self.state = state;
    }

    /// Hands out the tree and the report of issues.
    pub fn finish(self) -> (r: (Tree, ParseReport))
        ensures
            r.0@ == self@.nodes,
            r.1@ == self@.issues,
            renderable(r.0@),
            tree_shape(r.0@),
    {
        proof {
            use_type_invariant(&self);
        }
        self.state.finish()
    }
}

impl Default for TreeBuilder {
    /// The same as `TreeBuilder::new`.
    fn default() -> (r: TreeBuilder)
        ensures
            r@ == initial_builder(),
    {
        TreeBuilder::new()
    }
}

/// Builds the tree from every line of `text`, numbering lines from 1. It
/// never fails: rows that break the grammar are reported and the rest is
/// kept.
pub fn parse(text: &str) -> (r: (Tree, ParseReport))
    ensures
        r.0@ == spec_parse(text@).nodes,
        r.1@ == spec_parse(text@).issues,
        renderable(r.0@),
        tree_shape(r.0@),
{
    char_count_fits(text);
    let mut b = TreeBuilder::new();
    let mut cur = String::new();
    let mut pending_cr = false;
    let mut n: usize = 0;
    let ghost mut done: Seq<Seq<char>> = Seq::empty();
    proof {
        assert(text@.take(0) =~= Seq::<char>::empty());
        assert(done =~= Seq::new(0, |j: int| strip_cr(split_on(text@.take(0), '\n')[j])));
    }
    for c in it: text.chars()
        invariant
            it.seq() == text@,
            text@.len() <= usize::MAX,
            split_on(text@.take(it.index() as int), '\n').len() == n + 1,
            done == Seq::new(
                n as nat,
                |j: int| strip_cr(split_on(text@.take(it.index() as int), '\n')[j]),
            ),
            b@ == parse_lines(done),
            (if pending_cr {
                cur@.push('\r')
            } else {
                cur@
            }) == split_on(text@.take(it.index() as int), '\n').last(),
            !pending_cr ==> !(cur@.len() > 0 && cur@.last() == '\r'),
            n <= it.index(),
    {
        let ghost i = it.index();
        let ghost parts = split_on(text@.take(i as int), '\n');
        let ghost next = split_on(text@.take(i + 1), '\n');
        proof {
            assert(text@.take(i + 1).drop_last() =~= text@.take(i as int));
            assert(text@.take(i + 1).last() == c);
            lemma_split_on_count(text@.take(i + 1), '\n');
            lemma_split_on_nonempty(text@.take(i as int), '\n');
        }
        if c == '\n' {
            let line = cur;
            proof {
                assert(strip_cr(parts.last()) == line@);
                assert(line@.len() <= usize::MAX) by {
                    lemma_split_on_count(text@.take(i as int), '\n');
                }
            }
            b.ingest_line(line.as_str(), n + 1);
            proof {
                let d2 = done.push(line@);
                assert(d2.drop_last() =~= done);
                done = d2;
                assert(done =~= Seq::new((n + 1) as nat, |j: int| strip_cr(next[j])));
            }
            n = n + 1;
            cur = String::new();
            pending_cr = false;
        } else if c == '\r' {
            if pending_cr {
                push_char(&mut cur, '\r');
            }
            pending_cr = true;
            proof {
                assert(done =~= Seq::new(n as nat, |j: int| strip_cr(next[j])));
            }
        } else {
            if pending_cr {
                push_char(&mut cur, '\r');
            }
            push_char(&mut cur, c);
            pending_cr = false;
            proof {
                assert(done =~= Seq::new(n as nat, |j: int| strip_cr(next[j])));
            }
        }
    }
    if pending_cr {
        push_char(&mut cur, '\r');
    }
    let ghost parts = split_on(text@, '\n');
    proof {
        assert(text@.take(text@.len() as int) =~= text@);
        lemma_split_on_count(text@, '\n');
    }
    if !cur.as_str().is_empty() {
        b.ingest_line(cur.as_str(), n + 1);
        proof {
            let d2 = done.push(cur@);
            assert(d2.drop_last() =~= done);
            done = d2;
        }
    }
    proof {
        assert(done =~= lines_of(text@));
    }
    b.finish()
}

} // verus!
