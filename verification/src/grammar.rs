//! The record grammar: one `Spec` per row type, and the table of them.
use vstd::prelude::*;

use crate::text::str_eq;

verus! {

/// One row type: the tag that starts its rows, the XML element it becomes,
/// the names of its fields, how many of them are required, and which row
/// types may nest inside it.
#[derive(Debug, Clone, Copy)]
pub struct Spec {
    pub tag_in: &'static str,
    pub tag_out: &'static str,
    pub field_names: &'static [&'static str],
    pub min_fields: usize,
    pub allowed_children: &'static [&'static str],
}

/// A `Spec` with its strings taken as character sequences.
pub struct SpecView {
    pub tag_in: Seq<char>,
    pub tag_out: Seq<char>,
    pub field_names: Seq<Seq<char>>,
    pub min_fields: nat,
    pub allowed_children: Seq<Seq<char>>,
}

/// The views of a sequence of string slices.
pub open spec fn str_views(s: Seq<&str>) -> Seq<Seq<char>> {
    s.map_values(|x: &str| x@)
}

impl View for Spec {
    type V = SpecView;

    open spec fn view(&self) -> SpecView {
        SpecView {
            tag_in: self.tag_in@,
            tag_out: self.tag_out@,
            field_names: str_views(self.field_names@),
            min_fields: self.min_fields as nat,
            allowed_children: str_views(self.allowed_children@),
        }
    }
}

impl SpecView {
    /// A container is a row type that other rows may nest inside.
    pub open spec fn is_container(self) -> bool {
        self.allowed_children.len() > 0
    }

    /// Whether rows tagged `child` may nest inside this row type.
    pub open spec fn accepts(self, child: Seq<char>) -> bool {
        self.allowed_children.contains(child)
    }
}

impl Spec {
    /// Whether other rows may nest inside rows of this type.
    pub fn is_container(&self) -> (r: bool)
        ensures
            r == self@.is_container(),
            r == (self.allowed_children@.len() > 0),
    {
        self.allowed_children.len() > 0
    }

    /// Whether rows tagged `child_tag_in` may nest inside rows of this type.
    pub fn accepts(&self, child_tag_in: &str) -> (r: bool)
        ensures
            r == self@.accepts(child_tag_in@),
            r == (exists|i: int|
                0 <= i < self.allowed_children@.len() && #[trigger] self.allowed_children@[i]@
                    == child_tag_in@),
    {
        let n = self.allowed_children.len();
        let mut i: usize = 0;
        while i < n
            invariant
                n == self.allowed_children@.len(),
                i <= n,
                forall|j: int| 0 <= j < i ==> self.allowed_children@[j]@ != child_tag_in@,
            decreases n - i,
        {
            if str_eq(self.allowed_children[i], child_tag_in) {
                proof {
                    assert(self@.allowed_children[i as int] == child_tag_in@);
                }
                return true;
            }
            i = i + 1;
        }
        proof {
            if self@.allowed_children.contains(child_tag_in@) {
                let j = choose|j: int|
                    0 <= j < self@.allowed_children.len() && self@.allowed_children[j]
                        == child_tag_in@;
                assert(self.allowed_children@[j]@ == child_tag_in@);
            }
        }
        false
    }
}

/// The document root: `<people>`, holding persons.
pub open spec fn root_view() -> SpecView {
    SpecView {
        tag_in: ""@,
        tag_out: "people"@,
        field_names: seq![],
        min_fields: 0,
        allowed_children: seq!["P"@],
    }
}

/// `P|firstname|lastname`: a person, holding phones, addresses and family.
pub open spec fn person_view() -> SpecView {
    SpecView {
        tag_in: "P"@,
        tag_out: "person"@,
        field_names: seq!["firstname"@, "lastname"@],
        min_fields: 2,
        allowed_children: seq!["T"@, "A"@, "F"@],
    }
}

/// `F|name|born`: a family member, holding phones and addresses.
pub open spec fn family_view() -> SpecView {
    SpecView {
        tag_in: "F"@,
        tag_out: "family"@,
        field_names: seq!["name"@, "born"@],
        min_fields: 2,
        allowed_children: seq!["T"@, "A"@],
    }
}

/// `T|mobile|landline`: a phone; the landline may be left out.
pub open spec fn phone_view() -> SpecView {
    SpecView {
        tag_in: "T"@,
        tag_out: "phone"@,
        field_names: seq!["mobile"@, "landline"@],
        min_fields: 1,
        allowed_children: seq![],
    }
}

/// `A|street|city|zip`: an address, all three fields required.
pub open spec fn address_view() -> SpecView {
    SpecView {
        tag_in: "A"@,
        tag_out: "address"@,
        field_names: seq!["street"@, "city"@, "zip"@],
        min_fields: 3,
        allowed_children: seq![],
    }
}

/// The row types that may appear in a file, in lookup order.
pub open spec fn spec_table() -> Seq<SpecView> {
    seq![person_view(), family_view(), phone_view(), address_view()]
}

/// The first row type in `table` whose tag is `tag`.
pub open spec fn lookup_in(table: Seq<SpecView>, tag: Seq<char>) -> Option<SpecView>
    decreases table.len(),
{
    if table.len() == 0 {
        None
    } else if table[0].tag_in == tag {
        Some(table[0])
    } else {
        lookup_in(table.drop_first(), tag)
    }
}

/// The row type for `tag`, if the grammar has one.
pub open spec fn spec_lookup(tag: Seq<char>) -> Option<SpecView> {
    lookup_in(spec_table(), tag)
}

/// The root row type.
pub fn root_spec() -> (s: &'static Spec)
    ensures
        s@ == root_view(),
{
    let s: &'static Spec = &Spec {
        tag_in: "",
        tag_out: "people",
        field_names: &[],
        min_fields: 0,
        allowed_children: &["P"],
    };
    proof {
        assert(s@.field_names =~= seq![]);
        assert(s@.allowed_children =~= seq!["P"@]);
    }
    s
}

/// The table of row types.
pub fn specs() -> (t: &'static [Spec])
    ensures
        t@.map_values(|s: Spec| s@) == spec_table(),
{
    let t: &'static [Spec] = &[
        Spec {
            tag_in: "P",
            tag_out: "person",
            field_names: &["firstname", "lastname"],
            min_fields: 2,
            allowed_children: &["T", "A", "F"],
        },
        Spec {
            tag_in: "F",
            tag_out: "family",
            field_names: &["name", "born"],
            min_fields: 2,
            allowed_children: &["T", "A"],
        },
        Spec {
            tag_in: "T",
            tag_out: "phone",
            field_names: &["mobile", "landline"],
            min_fields: 1,
            allowed_children: &[],
        },
        Spec {
            tag_in: "A",
            tag_out: "address",
            field_names: &["street", "city", "zip"],
            min_fields: 3,
            allowed_children: &[],
        },
    ];
    proof {
        assert(t@[0]@.field_names =~= person_view().field_names);
        assert(t@[0]@.allowed_children =~= person_view().allowed_children);
        assert(t@[1]@.field_names =~= family_view().field_names);
        assert(t@[1]@.allowed_children =~= family_view().allowed_children);
        assert(t@[2]@.field_names =~= phone_view().field_names);
        assert(t@[2]@.allowed_children =~= phone_view().allowed_children);
        assert(t@[3]@.field_names =~= address_view().field_names);
        assert(t@[3]@.allowed_children =~= address_view().allowed_children);
        assert(t@.map_values(|s: Spec| s@) =~= spec_table());
    }
    t
}

/// The row type whose tag is `tag`, if any.
pub fn lookup_spec(tag: &str) -> (r: Option<&'static Spec>)
    ensures
        match r {
            Some(s) => spec_lookup(tag@) == Some(s@),
            None => spec_lookup(tag@) is None,
        },
{
    let t = specs();
    let n = t.len();
    let mut i: usize = 0;
    proof {
        assert(spec_table().skip(0) =~= spec_table());
    }
    while i < n
        invariant
            n == t@.len(),
            t@.map_values(|s: Spec| s@) == spec_table(),
            i <= n,
            spec_lookup(tag@) == lookup_in(spec_table().skip(i as int), tag@),
        decreases n - i,
    {
        proof {
            assert(spec_table().skip(i as int).drop_first() =~= spec_table().skip(i + 1));
            assert(spec_table().skip(i as int)[0] == t@[i as int]@);
        }
        if str_eq(t[i].tag_in, tag) {
            return Some(&t[i]);
        }
        i = i + 1;
    }
    None
}

} // verus!
