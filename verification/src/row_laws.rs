//! What one row does, stated from the row's text and the grammar alone:
//! how a line splits into its tag and values, which row types the grammar
//! has, where a row attaches, which fields it gets, and when it is reported.
use vstd::prelude::*;

use crate::builder::{
    builder_wf, count_message, issue, spec_ingest, unattached_message, BuilderView,
};
use crate::grammar::{
    address_view, family_view, lookup_in, person_view, phone_view, root_view, spec_lookup,
    spec_table, SpecView,
};
use crate::text::{is_blank, lines_of, split_on, strip_cr};

verus! {

/// The pieces put back together with `sep` between each two of them.
pub open spec fn join(parts: Seq<Seq<char>>, sep: char) -> Seq<char>
    decreases parts.len(),
{
    if parts.len() == 0 {
        Seq::<char>::empty()
    } else if parts.len() == 1 {
        parts[0]
    } else {
        join(parts.drop_last(), sep).push(sep) + parts.last()
    }
}

/// How often `c` occurs in `s`.
pub open spec fn occurrences(s: Seq<char>, c: char) -> nat
    decreases s.len(),
{
    if s.len() == 0 {
        0
    } else {
        occurrences(s.drop_last(), c) + if s.last() == c {
            1nat
        } else {
            0nat
        }
    }
}

proof fn lemma_join_extend_last(p: Seq<Seq<char>>, sep: char, c: char)
    requires
        p.len() >= 1,
    ensures
        join(p.update(p.len() - 1, p.last().push(c)), sep) == join(p, sep).push(c),
{
    let q = p.update(p.len() - 1, p.last().push(c));
    if p.len() > 1 {
        assert(q.drop_last() =~= p.drop_last());
        assert(join(q, sep) =~= join(p, sep).push(c));
    }
}

/// Splitting at `sep` loses nothing and finds every `sep`: the pieces,
/// joined with `sep`, give back the text; no piece holds `sep`; and there is
/// one piece more than there are occurrences of `sep`, so an empty piece
/// before, between or after separators is kept.
pub proof fn law_split_pieces(s: Seq<char>, sep: char)
    ensures
        join(split_on(s, sep), sep) == s,
        forall|i: int|
            0 <= i < split_on(s, sep).len() ==> !(#[trigger] split_on(s, sep)[i]).contains(sep),
        split_on(s, sep).len() == occurrences(s, sep) + 1,
    decreases s.len(),
{
    crate::text::lemma_split_on_nonempty(s, sep);
    if s.len() > 0 {
        let s1 = s.drop_last();
        law_split_pieces(s1, sep);
        crate::text::lemma_split_on_nonempty(s1, sep);
        let p1 = split_on(s1, sep);
        let p = split_on(s, sep);
        if s.last() == sep {
            assert(p == p1.push(Seq::<char>::empty()));
            assert(p.drop_last() =~= p1);
            assert(join(p, sep) =~= s);
            assert forall|i: int| 0 <= i < p.len() implies !(#[trigger] p[i]).contains(sep) by {
                if i < p1.len() {
                    assert(p[i] == p1[i]);
                }
            }
        } else {
            assert(p == p1.update(p1.len() - 1, p1.last().push(s.last())));
            lemma_join_extend_last(p1, sep, s.last());
            assert(join(p, sep) =~= s);
            assert forall|i: int| 0 <= i < p.len() implies !(#[trigger] p[i]).contains(sep) by {
                if i < p1.len() - 1 {
                    assert(p[i] == p1[i]);
                } else {
                    assert(!p1[i].contains(sep));
                    if p[i].contains(sep) {
                        let j = choose|j: int| 0 <= j < p[i].len() && p[i][j] == sep;
                        if j < p1[i].len() {
                            assert(p1[i][j] == sep);
                        }
                    }
                }
            }
        }
    }
}

/// The grammar as the format defines it: `P` (person: firstname,
/// lastname) and `F` (family: name, born) need exactly two fields, `A`
/// (address: street, city, zip) exactly three, and `T` (phone: mobile,
/// landline) one or two. The root holds only persons; a person holds phones,
/// addresses and family; a family holds phones and addresses; phones and
/// addresses hold nothing. Each tag finds its own row type, and the root's
/// empty tag finds none.
pub proof fn law_grammar()
    ensures
        spec_lookup("P"@) == Some(person_view()),
        spec_lookup("F"@) == Some(family_view()),
        spec_lookup("T"@) == Some(phone_view()),
        spec_lookup("A"@) == Some(address_view()),
        spec_lookup(Seq::<char>::empty()) is None,
        person_view().field_names == seq!["firstname"@, "lastname"@],
        person_view().min_fields == 2,
        family_view().field_names == seq!["name"@, "born"@],
        family_view().min_fields == 2,
        phone_view().field_names == seq!["mobile"@, "landline"@],
        phone_view().min_fields == 1,
        address_view().field_names == seq!["street"@, "city"@, "zip"@],
        address_view().min_fields == 3,
        root_view().allowed_children == seq!["P"@],
        person_view().allowed_children == seq!["T"@, "A"@, "F"@],
        family_view().allowed_children == seq!["T"@, "A"@],
        phone_view().allowed_children.len() == 0,
        address_view().allowed_children.len() == 0,
{
    reveal_strlit("P");
    reveal_strlit("F");
    reveal_strlit("T");
    reveal_strlit("A");
    reveal_with_fuel(lookup_in, 5);
    let t = spec_table();
    assert(t.drop_first() =~= seq![family_view(), phone_view(), address_view()]);
    assert(t.drop_first().drop_first() =~= seq![phone_view(), address_view()]);
    assert(t.drop_first().drop_first().drop_first() =~= seq![address_view()]);
    assert(t.drop_first().drop_first().drop_first().drop_first() =~= Seq::<SpecView>::empty());
    assert("P"@ != "F"@ && "P"@ != "T"@ && "P"@ != "A"@ && "F"@ != "T"@ && "F"@ != "A"@ && "T"@
        != "A"@) by {
        assert("P"@[0] != "F"@[0] && "P"@[0] != "T"@[0] && "P"@[0] != "A"@[0]);
        assert("F"@[0] != "T"@[0] && "F"@[0] != "A"@[0] && "T"@[0] != "A"@[0]);
    }
    assert("P"@ != Seq::<char>::empty() && "F"@ != Seq::<char>::empty() && "T"@ != Seq::<
        char,
    >::empty() && "A"@ != Seq::<char>::empty()) by {
        assert("P"@.len() == 1 && "F"@.len() == 1 && "T"@.len() == 1 && "A"@.len() == 1);
    }
}

/// The open container at stack position `k` lists `tag` among the rows it
/// holds.
pub open spec fn open_container_takes(b: BuilderView, k: int, tag: Seq<char>) -> bool {
    b.nodes[b.stack[k] as int].spec matches Some(s) && s.allowed_children.contains(tag)
}

/// A row type of the grammar is what its tag looks up.
pub proof fn law_table_lookup(s: SpecView)
    requires
        spec_table().contains(s),
    ensures
        spec_lookup(s.tag_in) == Some(s),
        1 <= s.min_fields <= s.field_names.len(),
{
    law_grammar();
    let i = choose|i: int| 0 <= i < spec_table().len() && spec_table()[i] == s;
    assert(i == 0 || i == 1 || i == 2 || i == 3);
}

/// What a row with a known tag does, from its text and the grammar alone.
/// Its values are the pieces of the line after the first `|` (see
/// `law_split_pieces`), empty ones included, `n` of them.
/// - If no open container lists the row's tag among the rows it holds, the
///   row adds one issue, "cannot be attached", and nothing else changes.
/// - Otherwise the deepest open container that lists the tag gets the row's
///   element as its last child; the containers above it are closed and the
///   row is opened if it holds rows itself. The element has one field
///   element per field name it keeps, named after it, in order, holding the
///   row's value unchanged, or nothing where the row has no value left. It
///   keeps every field name when `n` is out of the type's range, and then
///   the line adds the issue `X expects .. fields, got n`; otherwise it keeps
///   `n` fields and adds no issue. Nodes other than that container stay as
///   they were.
pub proof fn law_row(b: BuilderView, raw: Seq<char>, line_no: usize, s: SpecView)
    requires
        builder_wf(b),
        !is_blank(raw),
        raw.contains('|'),
        spec_table().contains(s),
        s.tag_in == split_on(raw, '|')[0],
    ensures
        ({
            let r = spec_ingest(b, raw, line_no);
            let vals = split_on(raw, '|').drop_first();
            let n = vals.len();
            let max = s.field_names.len();
            let out_of_range = n > max || n < s.min_fields;
            let kept = if out_of_range {
                max
            } else {
                n
            };
            let c = b.nodes.len() as int;
            &&& (forall|k: int|
                0 <= k < b.stack.len() ==> !#[trigger] open_container_takes(b, k, s.tag_in)) ==> r
                == b.with_issue(issue(line_no, raw, unattached_message(s)))
            &&& forall|p: int|
                0 <= p < b.stack.len() && #[trigger] open_container_takes(b, p, s.tag_in) && (forall|
                    q: int,
                | p < q < b.stack.len() ==> !open_container_takes(b, q, s.tag_in)) ==> {
                    &&& r.stack == (if s.allowed_children.len() > 0 {
                        b.stack.take(p + 1).push(c as usize)
                    } else {
                        b.stack.take(p + 1)
                    })
                    &&& r.issues == (if out_of_range {
                        b.issues.push(issue(line_no, raw, count_message(s, n)))
                    } else {
                        b.issues
                    })
                    &&& r.nodes.len() == c + 1 + kept
                    &&& r.nodes[b.stack[p] as int].children == b.nodes[b.stack[p] as int].children.push(
                        c as usize,
                    )
                    &&& r.nodes[b.stack[p] as int].tag == b.nodes[b.stack[p] as int].tag
                    &&& r.nodes[c].tag == s.tag_out
                    &&& r.nodes[c].text is None
                    &&& r.nodes[c].spec == Some(s)
                    &&& r.nodes[c].children == Seq::new(kept, |i: int| (c + 1 + i) as usize)
                    &&& forall|i: int|
                        0 <= i < kept ==> {
                            &&& (#[trigger] r.nodes[c + 1 + i]).tag == s.field_names[i]
                            &&& r.nodes[c + 1 + i].text == Some(
                                if i < n {
                                    vals[i]
                                } else {
                                    Seq::<char>::empty()
                                },
                            )
                            &&& r.nodes[c + 1 + i].spec is None
                            &&& r.nodes[c + 1 + i].children.len() == 0
                        }
                    &&& forall|i: int|
                        0 <= i < c && i != b.stack[p] ==> #[trigger] r.nodes[i] == b.nodes[i]
                }
        }),
{
    law_table_lookup(s);
    let r = spec_ingest(b, raw, line_no);
    let tag = s.tag_in;
    let vals = split_on(raw, '|').drop_first();
    let n = vals.len();
    let max = s.field_names.len();
    let fit = crate::builder::fit_values(s, vals);
    assert(crate::builder::spec_parse_line(raw, line_no) == Ok::<_, crate::builder::ParseErrorView>(
        (s, vals),
    ));
    crate::builder::lemma_deepest_acceptor(b.nodes, b.stack, tag, b.stack.len() as int);
    assert forall|k: int| 0 <= k < b.stack.len() implies crate::builder::node_accepts(
        b.nodes[b.stack[k] as int],
        tag,
    ) == #[trigger] open_container_takes(b, k, tag) by {}
    crate::laws::law_kept_rows_fit(s, vals);
    let out_of_range = n > max || n < s.min_fields;
    let b1 = if out_of_range {
        b.with_issue(issue(line_no, raw, count_message(s, n)))
    } else {
        b
    };
    assert(crate::builder::count_ok(s, n) == !out_of_range);
    match crate::builder::deepest_acceptor(b.nodes, b.stack, tag, b.stack.len() as int) {
        None => {
            assert(r == b.with_issue(issue(line_no, raw, unattached_message(s))));
            assert forall|p: int| 0 <= p < b.stack.len() implies !#[trigger] open_container_takes(
                b,
                p,
                tag,
            ) by {}
        },
        Some(p0) => {
            assert(open_container_takes(b, p0, tag));
            assert(r == crate::builder::spec_apply(b1, s, fit, line_no, raw));
            assert(b1.nodes == b.nodes && b1.stack == b.stack);
            let parent = b.stack[p0] as int;
            let kept = if out_of_range {
                max
            } else {
                n
            };
            let k = crate::builder::field_count(s, fit);
            assert(fit.len() == kept);
            assert(k == kept);
            crate::builder::lemma_attach_facts(b.nodes, parent, s, fit, k);
            assert(r.nodes == crate::builder::attach(b.nodes, parent, s, fit));
            assert(r.issues == b1.issues);
            let c = b.nodes.len() as int;
            assert forall|i: int| 0 <= i < kept implies {
                &&& (#[trigger] r.nodes[c + 1 + i]).tag == s.field_names[i]
                &&& r.nodes[c + 1 + i].text == Some(
                    if i < n {
                        vals[i]
                    } else {
                        Seq::<char>::empty()
                    },
                )
                &&& r.nodes[c + 1 + i].spec is None
                &&& r.nodes[c + 1 + i].children.len() == 0
            } by {
                assert(r.nodes[c + 1 + i] == crate::builder::field_node(s, fit, i));
            }
            assert forall|p: int|
                0 <= p < b.stack.len() && #[trigger] open_container_takes(b, p, tag) && (forall|
                    q: int,
                | p < q < b.stack.len() ==> !open_container_takes(b, q, tag)) implies p == p0 by {
                if p < p0 {
                    assert(open_container_takes(b, p0, tag));
                } else if p > p0 {
                    assert(!open_container_takes(b, p, tag));
                }
            }
        },
    }
}

/// Rows that do not parse: a line that is not blank and holds no `|` adds
/// the issue "malformed row"; a line whose first piece is not the tag of a
/// row type adds the issue naming that tag in quotes. Nothing else changes.
pub proof fn law_row_rejected(b: BuilderView, raw: Seq<char>, line_no: usize)
    requires
        !is_blank(raw),
    ensures
        !raw.contains('|') ==> spec_ingest(b, raw, line_no) == b.with_issue(
            issue(line_no, raw, "malformed row"@),
        ),
        (raw.contains('|') && forall|i: int|
            0 <= i < spec_table().len() ==> (#[trigger] spec_table()[i]).tag_in != split_on(
                raw,
                '|',
            )[0]) ==> spec_ingest(b, raw, line_no) == b.with_issue(
            issue(line_no, raw, "unknown tag "@ + crate::text::debug_quoted(split_on(raw, '|')[0])),
        ),
{
    let tag = split_on(raw, '|')[0];
    crate::laws::law_lookup_in_table(tag);
    match spec_lookup(tag) {
        Some(s) => {
            let i = choose|i: int| 0 <= i < spec_table().len() && spec_table()[i] == s;
            assert(spec_table()[i].tag_in == tag);
        },
        None => {},
    }
}

/// A character that does not occur in the text occurs in none of its pieces.
pub proof fn law_split_keeps_out(s: Seq<char>, sep: char, c: char)
    requires
        !s.contains(c),
    ensures
        forall|i: int|
            0 <= i < split_on(s, sep).len() ==> !(#[trigger] split_on(s, sep)[i]).contains(c),
    decreases s.len(),
{
    crate::text::lemma_split_on_nonempty(s, sep);
    if s.len() > 0 {
        let s1 = s.drop_last();
        assert(!s1.contains(c)) by {
            if s1.contains(c) {
                let j = choose|j: int| 0 <= j < s1.len() && s1[j] == c;
                assert(s[j] == c);
            }
        }
        law_split_keeps_out(s1, sep, c);
        crate::text::lemma_split_on_nonempty(s1, sep);
        let p1 = split_on(s1, sep);
        let p = split_on(s, sep);
        assert(s[s.len() - 1] != c);
        assert forall|i: int| 0 <= i < p.len() implies !(#[trigger] p[i]).contains(c) by {
            if i < p1.len() - 1 {
                assert(p[i] == p1[i]);
            } else if i == p1.len() - 1 {
                if p[i].contains(c) {
                    let j = choose|j: int| 0 <= j < p[i].len() && p[i][j] == c;
                    if s.last() != sep {
                        assert(p[i] == p1[i].push(s.last()));
                        if j < p1[i].len() {
                            assert(p1[i][j] == c);
                        }
                    } else {
                        assert(p[i] == p1[i]);
                    }
                }
            }
        }
    }
}

/// The lines of a text without carriage returns are what lies between its
/// line breaks: no line holds a break, and the lines joined with breaks give
/// back the text, less the break that ends it if it ends with one.
pub proof fn law_lines_join(s: Seq<char>)
    requires
        !s.contains('\r'),
    ensures
        forall|i: int| 0 <= i < lines_of(s).len() ==> !(#[trigger] lines_of(s)[i]).contains('\n'),
        s.len() > 0 && s.last() == '\n' ==> join(lines_of(s), '\n').push('\n') == s,
        !(s.len() > 0 && s.last() == '\n') ==> join(lines_of(s), '\n') == s,
{
    let parts = split_on(s, '\n');
    law_split_pieces(s, '\n');
    law_split_keeps_out(s, '\n', '\r');
    crate::text::lemma_split_on_nonempty(s, '\n');
    let lines = lines_of(s);
    assert forall|i: int| 0 <= i < parts.len() implies strip_cr(#[trigger] parts[i]) == parts[i] by {
        if parts[i].len() > 0 {
            assert(parts[i].contains(parts[i].last()));
        }
    }
    if s.len() > 0 && s.last() == '\n' {
        assert(parts == split_on(s.drop_last(), '\n').push(Seq::<char>::empty()));
        crate::text::lemma_split_on_nonempty(s.drop_last(), '\n');
        assert(lines =~= parts.drop_last());
        assert(join(parts, '\n') == join(parts.drop_last(), '\n').push('\n') + parts.last());
        assert(join(parts, '\n') =~= join(lines, '\n').push('\n'));
    } else {
        if s.len() > 0 {
            assert(parts == split_on(s.drop_last(), '\n').update(
                split_on(s.drop_last(), '\n').len() - 1,
                split_on(s.drop_last(), '\n').last().push(s.last()),
            ));
            crate::text::lemma_split_on_nonempty(s.drop_last(), '\n');
            assert(parts.last().len() > 0);
            assert(lines =~= parts);
        } else {
            assert(lines =~= Seq::<Seq<char>>::empty());
        }
    }
}

/// The value of a string of decimal digits.
pub open spec fn digits_value(d: Seq<char>) -> int
    decreases d.len(),
{
    if d.len() == 0 {
        0
    } else {
        digits_value(d.drop_last()) * 10 + (d.last() as int - '0' as int)
    }
}

/// Numbers in messages are written in decimal: digits only, no leading
/// zero, standing for the number itself.
pub proof fn law_decimal(n: nat)
    ensures
        digits_value(crate::text::decimal(n)) == n,
        forall|i: int|
            0 <= i < crate::text::decimal(n).len() ==> '0' <= #[trigger] crate::text::decimal(n)[i]
                <= '9',
        crate::text::decimal(n).len() >= 1,
        crate::text::decimal(n)[0] == '0' ==> n == 0,
    decreases n,
{
    let d = crate::text::decimal(n);
    if n >= 10 {
        law_decimal(n / 10);
        vstd::arithmetic::div_mod::lemma_fundamental_div_mod(n as int, 10);
        let r = n % 10;
        assert(d.drop_last() =~= crate::text::decimal(n / 10));
        assert(crate::text::digit_char(r) as int - '0' as int == r);
        assert(d[0] == crate::text::decimal(n / 10)[0]);
        let q = (n / 10) as int;
        assert(q * 10 == 10 * q) by (nonlinear_arith);
        assert(d.last() == crate::text::digit_char(r));
        assert(digits_value(d) == digits_value(d.drop_last()) * 10 + (d.last() as int - '0' as int));
    } else {
        assert(d.drop_last() =~= Seq::<char>::empty());
        assert(crate::text::digit_char(n) as int - '0' as int == n);
        assert(d.last() == crate::text::digit_char(n));
        assert(digits_value(d) == digits_value(d.drop_last()) * 10 + (d.last() as int - '0' as int));
    }
}

/// A text that does not end with a line break ends with its last line as
/// it stands, a final carriage return included; one that does has a line
/// per line break.
pub proof fn law_lines_last(s: Seq<char>)
    ensures
        s.len() > 0 && s.last() != '\n' ==> lines_of(s).len() == occurrences(s, '\n') + 1
            && lines_of(s).last() == split_on(s, '\n').last(),
        s.len() > 0 && s.last() == '\n' ==> lines_of(s).len() == occurrences(s, '\n'),
{
    law_split_pieces(s, '\n');
    crate::text::lemma_split_on_nonempty(s, '\n');
    if s.len() > 0 {
        crate::text::lemma_split_on_nonempty(s.drop_last(), '\n');
        let p1 = split_on(s.drop_last(), '\n');
        if s.last() != '\n' {
            assert(split_on(s, '\n').last() == p1.last().push(s.last()));
        } else {
            assert(split_on(s, '\n') == p1.push(Seq::<char>::empty()));
        }
    }
}

/// Parsing is feeding the lines to a fresh builder one by one, numbered
/// from 1: no lines leave the fresh builder, and one more line is taken in
/// by `spec_ingest` with its own number, after all those before it.
pub proof fn law_parse_is_line_by_line(lines: Seq<Seq<char>>, line: Seq<char>)
    requires
        lines.len() < usize::MAX,
    ensures
        crate::builder::parse_lines(Seq::<Seq<char>>::empty()) == crate::builder::initial_builder(),
        crate::builder::parse_lines(lines.push(line)) == spec_ingest(
            crate::builder::parse_lines(lines),
            line,
            (lines.len() + 1) as usize,
        ),
{
    assert(lines.push(line).drop_last() =~= lines);
}

} // verus!
