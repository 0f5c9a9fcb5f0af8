//! Puzzle configuration pieces that are kept as plain data: cell identifications, and the
//! IRP, surface and skew polyhedron settings that round-trip through saved files.
//!
//! They are read with DataContract semantics (see [`XmlDocument::data_contract_members`]):
//! anything missing from a file gets a zero or empty value.
use crate::netfmt::{bool_from_chars, bool_value, int_from_chars, int_value};
use crate::text::{
    append_chars, int_chars, int_text, lemma_int_text_parses, lemma_split_join, split, split_chars,
    string_of, trim, CharClass,
};
use crate::xml::{
    element_children, matched_members, node_is_nil, node_text, XElement, XmlDocument, XmlNode,
};
use vstd::prelude::*;

verus! {

pub const VERSION_PREVIEW: &'static str = "2.0";

pub const VERSION_CURRENT: &'static str = "2.1";

// ----- Integer lists ------------------------------------------------------------------------

/// The integers of a `:`-separated list, skipping empty and malformed items.
pub open spec fn int_items(items: Seq<Seq<char>>) -> Seq<i32>
    decreases items.len(),
{
    if items.len() == 0 {
        Seq::empty()
    } else {
        let prev = int_items(items.drop_last());
        let item = items.last();
        if item.len() > 0 && int_value(item) is Some {
            prev.push(int_value(item)->0 as i32)
        } else {
            prev
        }
    }
}

/// The integers of a saved list such as `1:-2:3`.
pub open spec fn int_array(s: Seq<char>) -> Seq<i32> {
    int_items(split(s, ':'))
}

/// The saved text of a list of integers: each in decimal, separated by `:`.
pub open spec fn int_array_text(v: Seq<i32>) -> Seq<char>
    decreases v.len(),
{
    if v.len() == 0 {
        Seq::empty()
    } else if v.len() == 1 {
        int_text(v[0] as int)
    } else {
        int_array_text(v.drop_last()) + seq![':'] + int_text(v.last() as int)
    }
}

/// Reads a saved list of integers.
pub fn load_int_array(s: &[char]) -> (r: Vec<i32>)
    ensures
        r@ == int_array(s@),
{
    let items = split_chars(s, ':');
    let ghost sp = split(s@, ':');
    let mut r: Vec<i32> = Vec::new();
    let mut i: usize = 0;
    while i < items.len()
        invariant
            0 <= i <= items@.len(),
            items@.len() == sp.len(),
            sp == split(s@, ':'),
            forall|j: int| 0 <= j < items@.len() ==> #[trigger] items@[j]@ == sp[j],
            r@ == int_items(sp.take(i as int)),
        decreases items.len() - i,
    {
        assert(sp.take(i + 1).drop_last() =~= sp.take(i as int));
        assert(items@[i as int]@ == sp[i as int]);
        if items[i].len() > 0 {
            match int_from_chars(&items[i]) {
                Some(v) => {
                    r.push(v);
                },
                None => {},
            }
        }
        i = i + 1;
    }
    assert(sp.take(sp.len() as int) =~= sp);
    r
}

fn copy_ints(v: &[i32]) -> (r: Vec<i32>)
    ensures
        r@ == v@,
{
    let mut r: Vec<i32> = Vec::new();
    let mut i: usize = 0;
    while i < v.len()
        invariant
            0 <= i <= v@.len(),
            r@ == v@.take(i as int),
        decreases v.len() - i,
    {
        r.push(v[i]);
        assert(r@ =~= v@.take(i + 1));
        i = i + 1;
    }
    assert(v@.take(v@.len() as int) =~= v@);
    r
}

/// Writes a list of integers, separated by `:`.
pub fn save_int_array(v: &[i32]) -> (r: String)
    ensures
        r@ == int_array_text(v@),
{
    let mut out: Vec<char> = Vec::new();
    let mut i: usize = 0;
    while i < v.len()
        invariant
            0 <= i <= v@.len(),
            out@ == int_array_text(v@.take(i as int)),
        decreases v.len() - i,
    {
        assert(v@.take(i + 1).drop_last() =~= v@.take(i as int));
        if i > 0 {
            out.push(':');
        }
        append_chars(&mut out, &int_chars(v[i] as i64));
        proof {
            if i == 0 {
                assert(out@ =~= int_array_text(v@.take(1)));
            } else {
                assert(out@ =~= int_array_text(v@.take(i + 1)));
            }
        }
        i = i + 1;
    }
    assert(v@.take(v@.len() as int) =~= v@);
    string_of(&out)
}

/// The text of one saved integer holds no separator, and reads back as that integer.
proof fn lemma_int_item(x: i32)
    ensures
        !int_text(x as int).contains(':'),
        int_text(x as int).len() > 0,
        int_value(int_text(x as int)) == Some(x as int),
{
    lemma_int_text_parses(x as int, i32::MIN as int, i32::MAX as int);
    crate::text::lemma_int_text_nonempty(x as int);
    let t = int_text(x as int);
    assert forall|i: int| 0 <= i < t.len() implies t[i] != ':' by {
        assert(t[i] == '-' || crate::text::is_digit_char(t[i], 10));
    }
    assert(t[0] == '-' || crate::text::is_digit_char(t[0], 10));
    assert(t.last() == '-' || crate::text::is_digit_char(t.last(), 10));
    crate::text::lemma_trim_noop(t, CharClass::Whitespace);
}

/// A saved list of integers reads back as the same list.
pub proof fn lemma_int_array_round_trip(v: Seq<i32>)
    ensures
        int_array(int_array_text(v)) == v,
    decreases v.len(),
{
    if v.len() == 1 {
        let t = int_text(v[0] as int);
        lemma_int_item(v[0]);
        crate::text::lemma_split_single(t, ':');
        assert(seq![t].drop_last() =~= Seq::<Seq<char>>::empty());
        assert(int_items(Seq::<Seq<char>>::empty()) =~= Seq::<i32>::empty());
        assert(int_items(seq![t]) =~= seq![v[0]]);
        assert(v =~= seq![v[0]]);
    } else if v.len() > 1 {
        let t = int_text(v.last() as int);
        lemma_int_array_round_trip(v.drop_last());
        lemma_int_item(v.last());
        lemma_split_join(int_array_text(v.drop_last()), t, ':');
        let pieces = split(int_array_text(v.drop_last()), ':').push(t);
        assert(pieces.drop_last() =~= split(int_array_text(v.drop_last()), ':'));
        assert(pieces.last() == t);
        assert(int_items(pieces) =~= v.drop_last().push(v.last()));
        assert(v.drop_last().push(v.last()) =~= v);
    } else {
        assert(split(Seq::<char>::empty(), ':') =~= seq![Seq::<char>::empty()]);
        assert(seq![Seq::<char>::empty()].drop_last() =~= Seq::<Seq<char>>::empty());
        assert(int_items(Seq::<Seq<char>>::empty()) =~= Seq::<i32>::empty());
        assert(seq![Seq::<char>::empty()].last().len() == 0);
        assert(int_items(seq![Seq::<char>::empty()]) =~= Seq::<i32>::empty());
        assert(int_array_text(v) =~= Seq::<char>::empty());
    }
}

// ----- Saved elements -----------------------------------------------------------------------

/// An element with a name and text and nothing else.
pub open spec fn is_text_element(e: XElement, name: Seq<char>, text: Seq<char>) -> bool {
    &&& e.name@ == name
    &&& e.attrs@.len() == 0
    &&& e.text matches Some(t) && t@ == text
    &&& e.children@.len() == 0
}

/// The saved text of a boolean.
pub open spec fn bool_text(b: bool) -> Seq<char> {
    if b {
        "true"@
    } else {
        "false"@
    }
}

fn bool_string(b: bool) -> (r: String)
    ensures
        r@ == bool_text(b),
{
    if b {
        String::from_str("true")
    } else {
        String::from_str("false")
    }
}

fn int_string(v: i32) -> (r: String)
    ensures
        r@ == int_text(v as int),
{
    string_of(&int_chars(v as i64))
}

/// An integer read from saved text, 0 if it is malformed.
pub open spec fn int_or_zero(t: Seq<char>) -> i32 {
    match int_value(t) {
        Some(v) => v as i32,
        None => 0,
    }
}

/// A boolean read from saved text, false if it is malformed.
pub open spec fn bool_or_false(t: Seq<char>) -> bool {
    match bool_value(t) {
        Some(b) => b,
        None => false,
    }
}

fn int_or_zero_of(t: &[char]) -> (r: i32)
    ensures
        r == int_or_zero(t@),
{
    match int_from_chars(t) {
        Some(v) => v,
        None => 0,
    }
}

fn bool_or_false_of(t: &[char]) -> (r: bool)
    ensures
        r == bool_or_false(t@),
{
    match bool_from_chars(t) {
        Some(b) => b,
        None => false,
    }
}

/// The members a node holds, matched in order against `names`.
pub open spec fn members_of(nodes: Seq<XmlNode>, node: int, names: Seq<Seq<char>>) -> Seq<
    (usize, usize),
> {
    matched_members(nodes, element_children(nodes, node), names).0
}

// ----- Identification ------------------------------------------------------------------------

/// How to identify one cell with another, via a sequence of reflections.
#[derive(Clone, Debug, Default, PartialEq)]
pub struct Identification {
    /// The initial edges to reflect across. If empty, all of them.
    pub initial_edges: Vec<i32>,
    /// Subsequent edges to reflect across to get from one cell to another.
    pub edges: Vec<i32>,
    /// First do an in-place reflection of the cell (keeping the initial edge in place). Allows
    /// some otherwise impossible colorings (e.g. an orientable {4,4} 9-color).
    pub in_place_reflection: bool,
    /// CCW symmetry rotation applied after the reflections (1 means 1/p of a turn).
    pub end_rotation: i32,
    /// Also use the mirrored list of edges (mirrored about the first segment's midpoint).
    pub use_mirrored_edge_set: bool,
}

pub struct IdentificationView {
    pub initial_edges: Seq<i32>,
    pub edges: Seq<i32>,
    pub in_place_reflection: bool,
    pub end_rotation: i32,
    pub use_mirrored_edge_set: bool,
}

impl View for Identification {
    type V = IdentificationView;

    open spec fn view(&self) -> IdentificationView {
        IdentificationView {
            initial_edges: self.initial_edges@,
            edges: self.edges@,
            in_place_reflection: self.in_place_reflection,
            end_rotation: self.end_rotation,
            use_mirrored_edge_set: self.use_mirrored_edge_set,
        }
    }
}

/// The saved form of an identification: an `Identification` element with one text child per
/// member, in serialization order.
pub open spec fn identification_element(r: XElement, id: IdentificationView) -> bool {
    &&& r.name@ == "Identification"@
    &&& r.attrs@.len() == 0
    &&& r.text is None
    &&& r.children@.len() == 5
    &&& is_text_element(r.children@[0], "EdgeSet"@, int_array_text(id.edges))
    &&& is_text_element(r.children@[1], "EndRotation"@, int_text(id.end_rotation as int))
    &&& is_text_element(r.children@[2], "InPlaceReflection"@, bool_text(id.in_place_reflection))
    &&& is_text_element(r.children@[3], "InitialEdgeSet"@, int_array_text(id.initial_edges))
    &&& is_text_element(
        r.children@[4],
        "UseMirroredEdgeSet"@,
        bool_text(id.use_mirrored_edge_set),
    )
}

/// The members of a saved identification, in serialization order.
pub open spec fn identification_members() -> Seq<Seq<char>> {
    seq![
        "EdgeSet"@,
        "EndRotation"@,
        "InPlaceReflection"@,
        "InitialEdgeSet"@,
        "UseMirroredEdgeSet"@,
    ]
}

/// An identification with nothing set.
pub open spec fn empty_identification() -> IdentificationView {
    IdentificationView {
        initial_edges: Seq::empty(),
        edges: Seq::empty(),
        in_place_reflection: false,
        end_rotation: 0,
        use_mirrored_edge_set: false,
    }
}

/// Reading the saved members, in order, into an identification.
pub open spec fn read_identification_members(
    nodes: Seq<XmlNode>,
    members: Seq<(usize, usize)>,
) -> IdentificationView
    decreases members.len(),
{
    if members.len() == 0 {
        empty_identification()
    } else {
        let r = read_identification_members(nodes, members.drop_last());
        let (i, n) = members.last();
        let t = node_text(nodes, n as int);
        if i == 0 {
            IdentificationView { edges: int_array(t), ..r }
        } else if i == 1 {
            IdentificationView { end_rotation: int_or_zero(t), ..r }
        } else if i == 2 {
            IdentificationView { in_place_reflection: bool_or_false(t), ..r }
        } else if i == 3 {
            IdentificationView { initial_edges: int_array(t), ..r }
        } else {
            IdentificationView { use_mirrored_edge_set: bool_or_false(t), ..r }
        }
    }
}

/// A saved identification.
pub open spec fn read_identification(nodes: Seq<XmlNode>, node: int) -> IdentificationView {
    read_identification_members(nodes, members_of(nodes, node, identification_members()))
}

fn identification_names() -> (r: [&'static str; 5])
    ensures
        r@.map_values(|m: &str| m@) == identification_members(),
{
    let r = ["EdgeSet", "EndRotation", "InPlaceReflection", "InitialEdgeSet", "UseMirroredEdgeSet"];
    assert(r@.map_values(|m: &str| m@) =~= identification_members());
    r
}

impl Identification {
    pub fn new(edges: &[i32], end_rotation: i32, use_mirrored_edge_set: bool) -> (r: Self)
        ensures
            r@ == (IdentificationView {
                edges: edges@,
                end_rotation,
                use_mirrored_edge_set,
                ..empty_identification()
            }),
    {
        Identification {
            initial_edges: Vec::new(),
            edges: copy_ints(edges),
            in_place_reflection: false,
            end_rotation,
            use_mirrored_edge_set,
        }
    }

    /// Reads a saved identification.
    pub fn read(doc: &XmlDocument, node: usize) -> (r: Self)
        requires
            doc.wf(),
        ensures
            r@ == read_identification(doc.nodes@, node as int),
    {
        let names = identification_names();
        let members = doc.data_contract_members(node, &names);
        let ghost all = members@;
        let mut r = Identification {
            initial_edges: Vec::new(),
            edges: Vec::new(),
            in_place_reflection: false,
            end_rotation: 0,
            use_mirrored_edge_set: false,
        };
        let mut k: usize = 0;
        while k < members.len()
            invariant
                0 <= k <= members@.len(),
                all == members@,
                doc.wf(),
                r@ == read_identification_members(doc.nodes@, all.take(k as int)),
            decreases members.len() - k,
        {
            assert(all.take(k + 1).drop_last() =~= all.take(k as int));
            let (i, n) = members[k];
            let t = doc.text(n);
            if i == 0 {
                r.edges = load_int_array(&t);
            } else if i == 1 {
                r.end_rotation = int_or_zero_of(&t);
            } else if i == 2 {
                r.in_place_reflection = bool_or_false_of(&t);
            } else if i == 3 {
                r.initial_edges = load_int_array(&t);
            } else {
                r.use_mirrored_edge_set = bool_or_false_of(&t);
            }
            k = k + 1;
        }
        assert(all.take(all.len() as int) =~= all);
        r
    }

    /// The saved form: an `Identification` element with one child per member.
    pub fn write(&self) -> (r: XElement)
        ensures
            identification_element(r, self@),
    {
        XElement::new("Identification").child(
            XElement::with_text("EdgeSet", save_int_array(&self.edges).as_str()),
        ).child(
            XElement::with_text("EndRotation", int_string(self.end_rotation).as_str()),
        ).child(
            XElement::with_text(
                "InPlaceReflection",
                bool_string(self.in_place_reflection).as_str(),
            ),
        ).child(
            XElement::with_text("InitialEdgeSet", save_int_array(&self.initial_edges).as_str()),
        ).child(
            XElement::with_text(
                "UseMirroredEdgeSet",
                bool_string(self.use_mirrored_edge_set).as_str(),
            ),
        )
    }
}

/// Reads the `Identification` children of a node.
pub fn read_identifications(doc: &XmlDocument, node: usize) -> (r: Vec<Identification>)
    requires
        doc.wf(),
    ensures
        r@.len() == crate::xml::children_named(doc.nodes@, node as int, "Identification"@).len(),
        forall|i: int|
            0 <= i < r@.len() ==> #[trigger] r@[i]@ == read_identification(
                doc.nodes@,
                crate::xml::children_named(doc.nodes@, node as int, "Identification"@)[i] as int,
            ),
{
    let kids = doc.children(node, "Identification");
    let mut r: Vec<Identification> = Vec::new();
    let mut i: usize = 0;
    while i < kids.len()
        invariant
            0 <= i <= kids@.len(),
            doc.wf(),
            kids@ == crate::xml::children_named(doc.nodes@, node as int, "Identification"@),
            r@.len() == i,
            forall|j: int|
                0 <= j < i ==> #[trigger] r@[j]@ == read_identification(doc.nodes@, kids@[j] as int),
        decreases kids.len() - i,
    {
        r.push(Identification::read(doc, kids[i]));
        i = i + 1;
    }
    r
}

/// An `Identifications` element holding each identification's saved form.
pub fn write_identifications(ids: &[Identification]) -> (r: XElement)
    ensures
        r.name@ == "Identifications"@,
        r.attrs@.len() == 0,
        r.text is None,
        r.children@.len() == ids@.len(),
        forall|i: int| 0 <= i < ids@.len() ==> identification_element(#[trigger] r.children@[i], ids@[i]@),
{
    let mut e = XElement::new("Identifications");
    let mut i: usize = 0;
    while i < ids.len()
        invariant
            0 <= i <= ids@.len(),
            e.name@ == "Identifications"@,
            e.attrs@.len() == 0,
            e.text is None,
            e.children@.len() == i,
            forall|j: int| 0 <= j < i ==> identification_element(#[trigger] e.children@[j], ids@[j]@),
        decreases ids.len() - i,
    {
        e.push(ids[i].write());
        i = i + 1;
    }
    e
}

// ----- IRP ------------------------------------------------------------------------------------

/// An IRP (infinite regular polyhedron) to associate with a puzzle. Unused in 2D, but kept so
/// it round-trips through saved files.
#[derive(Clone, Debug, Default, PartialEq)]
pub struct IrpConfig {
    pub data_file: Option<String>,
    pub first_tile: i32,
    pub reflect: bool,
    pub rotate: i32,
}

pub struct IrpView {
    pub data_file: Option<Seq<char>>,
    pub first_tile: i32,
    pub reflect: bool,
    pub rotate: i32,
}

impl View for IrpConfig {
    type V = IrpView;

    open spec fn view(&self) -> IrpView {
        IrpView {
            data_file: match self.data_file {
                Some(f) => Some(f@),
                None => None,
            },
            first_tile: self.first_tile,
            reflect: self.reflect,
            rotate: self.rotate,
        }
    }
}

/// The members of a saved IRP configuration, in serialization order.
pub open spec fn irp_members() -> Seq<Seq<char>> {
    seq!["DataFile"@, "FirstTile"@, "Reflect"@, "Rotate"@]
}

/// Reading the saved members, in order, into an IRP configuration.
pub open spec fn read_irp_members(nodes: Seq<XmlNode>, members: Seq<(usize, usize)>) -> IrpView
    decreases members.len(),
{
    if members.len() == 0 {
        IrpView { data_file: None, first_tile: 0, reflect: false, rotate: 0 }
    } else {
        let r = read_irp_members(nodes, members.drop_last());
        let (i, n) = members.last();
        let t = node_text(nodes, n as int);
        if i == 0 {
            IrpView {
                data_file: if node_is_nil(nodes, n as int) {
                    None
                } else {
                    Some(t)
                },
                ..r
            }
        } else if i == 1 {
            IrpView { first_tile: int_or_zero(t), ..r }
        } else if i == 2 {
            IrpView { reflect: bool_or_false(t), ..r }
        } else {
            IrpView { rotate: int_or_zero(t), ..r }
        }
    }
}

/// A saved IRP configuration.
pub open spec fn read_irp(nodes: Seq<XmlNode>, node: int) -> IrpView {
    read_irp_members(nodes, members_of(nodes, node, irp_members()))
}

impl IrpConfig {
    /// Reads a saved IRP configuration.
    pub fn read(doc: &XmlDocument, node: usize) -> (r: Self)
        requires
            doc.wf(),
        ensures
            r@ == read_irp(doc.nodes@, node as int),
    {
        let names = ["DataFile", "FirstTile", "Reflect", "Rotate"];
        assert(names@.map_values(|m: &str| m@) =~= irp_members());
        let members = doc.data_contract_members(node, &names);
        let ghost all = members@;
        let mut r = IrpConfig { data_file: None, first_tile: 0, reflect: false, rotate: 0 };
        let mut k: usize = 0;
        while k < members.len()
            invariant
                0 <= k <= members@.len(),
                all == members@,
                doc.wf(),
                forall|t: int| 0 <= t < all.len() ==> #[trigger] all[t].1 < doc.nodes@.len(),
                r@ == read_irp_members(doc.nodes@, all.take(k as int)),
            decreases members.len() - k,
        {
            assert(all.take(k + 1).drop_last() =~= all.take(k as int));
            let (i, n) = members[k];
            assert(all[k as int].1 < doc.nodes@.len());
            let t = doc.text(n);
            if i == 0 {
                r.data_file = if doc.is_nil(n) {
                    None
                } else {
                    Some(string_of(&t))
                };
            } else if i == 1 {
                r.first_tile = int_or_zero_of(&t);
            } else if i == 2 {
                r.reflect = bool_or_false_of(&t);
            } else {
                r.rotate = int_or_zero_of(&t);
            }
            k = k + 1;
        }
        assert(all.take(all.len() as int) =~= all);
        r
    }

    /// The saved form: an `IRPConfig` element with one child per member (a missing data file
    /// written as nil).
    pub fn write(&self) -> (r: XElement)
        ensures
            r.name@ == "IRPConfig"@,
            r.attrs@.len() == 0,
            r.text is None,
            r.children@.len() == 4,
            match self.data_file {
                Some(f) => is_text_element(r.children@[0], "DataFile"@, f@),
                None => r.children@[0].name@ == "DataFile"@ && r.children@[0].text is None
                    && r.children@[0].children@.len() == 0,
            },
            is_text_element(r.children@[1], "FirstTile"@, int_text(self.first_tile as int)),
            is_text_element(r.children@[2], "Reflect"@, bool_text(self.reflect)),
            is_text_element(r.children@[3], "Rotate"@, int_text(self.rotate as int)),
    {
        let data = match &self.data_file {
            Some(f) => XElement::with_text("DataFile", f.as_str()),
            None => XElement::nil("DataFile"),
        };
        XElement::new("IRPConfig").child(data).child(
            XElement::with_text("FirstTile", int_string(self.first_tile).as_str()),
        ).child(XElement::with_text("Reflect", bool_string(self.reflect).as_str())).child(
            XElement::with_text("Rotate", int_string(self.rotate).as_str()),
        )
    }
}

// ----- Named enums --------------------------------------------------------------------------

/// The value with a saved name (ignoring surrounding white space), from a table of names.
pub open spec fn named_value<T>(names: Seq<(&'static str, T)>, t: Seq<char>, k: int) -> Option<T>
    decreases k,
{
    if k <= 0 {
        None
    } else {
        match named_value(names, t, k - 1) {
            Some(v) => Some(v),
            None => if names[k - 1].0@ == trim(t, CharClass::Whitespace) {
                Some(names[k - 1].1)
            } else {
                None
            },
        }
    }
}

/// The first value in a table of names whose name is the trimmed text.
pub fn read_enum<T: Copy>(t: &[char], names: &[(&'static str, T)]) -> (r: Option<T>)
    ensures
        r == named_value(names@, t@, names@.len() as int),
{
    let n = crate::text::trim_chars(t, CharClass::Whitespace);
    let mut i: usize = 0;
    while i < names.len()
        invariant
            0 <= i <= names@.len(),
            n@ == trim(t@, CharClass::Whitespace),
            named_value(names@, t@, i as int) is None,
        decreases names.len() - i,
    {
        if crate::xml::chars_equal(&crate::text::chars_of(names[i].0), &n) {
            proof {
                lemma_named_value_found(names@, t@, i + 1, names@.len() as int);
            }
            return Some(names[i].1);
        }
        i = i + 1;
    }
    None
}

proof fn lemma_named_value_found<T>(names: Seq<(&'static str, T)>, t: Seq<char>, k: int, end: int)
    requires
        k <= end,
        named_value(names, t, k) is Some,
    ensures
        named_value(names, t, end) == named_value(names, t, k),
    decreases end - k,
{
    if k < end {
        lemma_named_value_found(names, t, k, end - 1);
    }
}

/// The name of a value, from a table of names (its first entry for the value), or "" if it has
/// none.
pub fn enum_name<T: PartialEq + Copy>(v: T, names: &[(&'static str, T)]) -> (r: &'static str)
    requires
        vstd::laws_eq::obeys_concrete_eq::<T>(),
    ensures
        match first_named(names@, v, names@.len() as int) {
            Some(k) => r@ == names@[k].0@,
            None => r@ == ""@,
        },
{
    let mut i: usize = 0;
    while i < names.len()
        invariant
            0 <= i <= names@.len(),
            vstd::laws_eq::obeys_concrete_eq::<T>(),
            first_named(names@, v, i as int) is None,
        decreases names.len() - i,
    {
        let found = names[i].1 == v;
        proof {
            reveal(vstd::laws_eq::obeys_concrete_eq);
        }
        if found {
            proof {
                lemma_first_named_found(names@, v, i + 1, names@.len() as int);
            }
            return names[i].0;
        }
        i = i + 1;
    }
    ""
}

/// The first of the first `k` table entries for a value.
pub open spec fn first_named<T>(names: Seq<(&'static str, T)>, v: T, k: int) -> Option<int>
    decreases k,
{
    if k <= 0 {
        None
    } else {
        match first_named(names, v, k - 1) {
            Some(j) => Some(j),
            None => if names[k - 1].1 == v {
                Some(k - 1)
            } else {
                None
            },
        }
    }
}

proof fn lemma_first_named_found<T>(names: Seq<(&'static str, T)>, v: T, k: int, end: int)
    requires
        k <= end,
        first_named(names, v, k) is Some,
    ensures
        first_named(names, v, end) == first_named(names, v, k),
    decreases end - k,
{
    if k < end {
        lemma_first_named_found(names, v, k, end - 1);
    }
}

#[derive(Clone, Copy, Debug, Default, PartialEq, Eq, Structural)]
pub enum Surface {
    #[default]
    NoSurface,
    Sphere,
    Boys,
    CliffordTorus,
    LawsonKleinBottle,
}

/// The saved name of a surface.
pub open spec fn surface_name(s: Surface) -> Seq<char> {
    match s {
        Surface::NoSurface => "None"@,
        Surface::Sphere => "Sphere"@,
        Surface::Boys => "Boys"@,
        Surface::CliffordTorus => "CliffordTorus"@,
        Surface::LawsonKleinBottle => "LawsonKleinBottle"@,
    }
}

/// The saved file format's names of the surfaces: `None`, `Sphere`, `Boys`, `CliffordTorus` and
/// `LawsonKleinBottle`, each naming one surface only, with no white space at either end (so a
/// saved name reads back, by [`Surface::from_name`], as the surface it names).
pub proof fn lemma_surface_names()
    ensures
        surface_name(Surface::NoSurface) == "None"@,
        surface_name(Surface::Sphere) == "Sphere"@,
        surface_name(Surface::Boys) == "Boys"@,
        surface_name(Surface::CliffordTorus) == "CliffordTorus"@,
        surface_name(Surface::LawsonKleinBottle) == "LawsonKleinBottle"@,
        forall|a: Surface, b: Surface| #[trigger] surface_name(a) == #[trigger] surface_name(b) ==> a == b,
        forall|a: Surface| trim(#[trigger] surface_name(a), CharClass::Whitespace) == surface_name(a),
{
    reveal_strlit("None");
    reveal_strlit("Sphere");
    reveal_strlit("Boys");
    reveal_strlit("CliffordTorus");
    reveal_strlit("LawsonKleinBottle");
    assert forall|a: Surface, b: Surface| #[trigger] surface_name(a) == #[trigger] surface_name(b) implies a == b by {
        if a != b {
            let (x, y) = (surface_name(a), surface_name(b));
            if x.len() == y.len() {
                assert(x[0] != y[0]);
            }
        }
    }
    assert forall|a: Surface| trim(#[trigger] surface_name(a), CharClass::Whitespace) == surface_name(a) by {
        let x = surface_name(a);
        assert(x.len() > 0);
        assert(!crate::text::in_class(x[0], CharClass::Whitespace));
        assert(!crate::text::in_class(x.last(), CharClass::Whitespace));
        crate::text::lemma_trim_noop(x, CharClass::Whitespace);
    }
}

impl Surface {
    /// The saved name.
    pub fn name(self) -> (r: &'static str)
        ensures
            r@ == surface_name(self),
    {
        match self {
            Surface::NoSurface => "None",
            Surface::Sphere => "Sphere",
            Surface::Boys => "Boys",
            Surface::CliffordTorus => "CliffordTorus",
            Surface::LawsonKleinBottle => "LawsonKleinBottle",
        }
    }

    /// The surface with a saved name (ignoring surrounding white space).
    pub fn from_name(t: &[char]) -> (r: Option<Surface>)
        ensures
            match r {
                Some(s) => surface_name(s) == trim(t@, CharClass::Whitespace),
                None => forall|s: Surface| surface_name(s) != trim(t@, CharClass::Whitespace),
            },
    {
        let n = crate::text::trim_chars(t, CharClass::Whitespace);
        let all = [
            Surface::NoSurface,
            Surface::Sphere,
            Surface::Boys,
            Surface::CliffordTorus,
            Surface::LawsonKleinBottle,
        ];
        let mut i: usize = 0;
        while i < 5
            invariant
                0 <= i <= 5,
                n@ == trim(t@, CharClass::Whitespace),
                all@ == seq![
                    Surface::NoSurface,
                    Surface::Sphere,
                    Surface::Boys,
                    Surface::CliffordTorus,
                    Surface::LawsonKleinBottle,
                ],
                forall|j: int| 0 <= j < i ==> surface_name(#[trigger] all@[j]) != n@,
            decreases 5 - i,
        {
            let s = all[i];
            if crate::xml::chars_equal(&crate::text::chars_of(s.name()), &n) {
                return Some(s);
            }
            i = i + 1;
        }
        proof {
            assert forall|s: Surface| surface_name(s) != n@ by {
                match s {
                    Surface::NoSurface => assert(surface_name(all@[0]) != n@),
                    Surface::Sphere => assert(surface_name(all@[1]) != n@),
                    Surface::Boys => assert(surface_name(all@[2]) != n@),
                    Surface::CliffordTorus => assert(surface_name(all@[3]) != n@),
                    Surface::LawsonKleinBottle => assert(surface_name(all@[4]) != n@),
                }
            }
        }
        None
    }
}

#[derive(Clone, Copy, Debug, Default, PartialEq, Eq, Structural)]
pub enum Polytope {
    #[default]
    Duoprism,
    Runcinated5Cell,
    Bitruncated5Cell,
}

/// The saved name of a polytope.
pub open spec fn polytope_name(p: Polytope) -> Seq<char> {
    match p {
        Polytope::Duoprism => "Duoprism"@,
        Polytope::Runcinated5Cell => "Runcinated5Cell"@,
        Polytope::Bitruncated5Cell => "Bitruncated5Cell"@,
    }
}

/// The polytope a saved name stands for, if any.
pub open spec fn polytope_named(t: Seq<char>) -> Option<Polytope> {
    let n = trim(t, CharClass::Whitespace);
    if n == polytope_name(Polytope::Duoprism) {
        Some(Polytope::Duoprism)
    } else if n == polytope_name(Polytope::Runcinated5Cell) {
        Some(Polytope::Runcinated5Cell)
    } else if n == polytope_name(Polytope::Bitruncated5Cell) {
        Some(Polytope::Bitruncated5Cell)
    } else {
        None
    }
}

impl Polytope {
    /// The saved name.
    pub fn name(self) -> (r: &'static str)
        ensures
            r@ == polytope_name(self),
    {
        match self {
            Polytope::Duoprism => "Duoprism",
            Polytope::Runcinated5Cell => "Runcinated5Cell",
            Polytope::Bitruncated5Cell => "Bitruncated5Cell",
        }
    }

    /// The polytope with a saved name (ignoring surrounding white space).
    pub fn from_name(t: &[char]) -> (r: Option<Polytope>)
        ensures
            r == polytope_named(t@),
    {
        let n = crate::text::trim_chars(t, CharClass::Whitespace);
        if crate::xml::chars_equal(&crate::text::chars_of(Polytope::Duoprism.name()), &n) {
            Some(Polytope::Duoprism)
        } else if crate::xml::chars_equal(
            &crate::text::chars_of(Polytope::Runcinated5Cell.name()),
            &n,
        ) {
            Some(Polytope::Runcinated5Cell)
        } else if crate::xml::chars_equal(
            &crate::text::chars_of(Polytope::Bitruncated5Cell.name()),
            &n,
        ) {
            Some(Polytope::Bitruncated5Cell)
        } else {
            None
        }
    }
}

/// A regular 4D skew polyhedron to associate with a puzzle. Unused in 2D, but kept so it
/// round-trips.
#[derive(Clone, Debug, Default, PartialEq, Eq, Structural)]
pub struct Skew4DConfig {
    pub polytope: Polytope,
}

/// Reading the saved `Polytope` members in turn (an unknown name gives the default).
pub open spec fn read_skew_members(nodes: Seq<XmlNode>, members: Seq<(usize, usize)>) -> Polytope
    decreases members.len(),
{
    if members.len() == 0 {
        Polytope::Duoprism
    } else {
        match polytope_named(node_text(nodes, members.last().1 as int)) {
            Some(p) => p,
            None => Polytope::Duoprism,
        }
    }
}

impl Skew4DConfig {
    /// Reads a saved skew polyhedron configuration.
    pub fn read(doc: &XmlDocument, node: usize) -> (r: Self)
        requires
            doc.wf(),
        ensures
            r.polytope == read_skew_members(
                doc.nodes@,
                members_of(doc.nodes@, node as int, seq!["Polytope"@]),
            ),
    {
        let names = ["Polytope"];
        assert(names@.map_values(|m: &str| m@) =~= seq!["Polytope"@]);
        let members = doc.data_contract_members(node, &names);
        let ghost all = members@;
        let mut r = Skew4DConfig { polytope: Polytope::Duoprism };
        let mut k: usize = 0;
        while k < members.len()
            invariant
                0 <= k <= members@.len(),
                all == members@,
                doc.wf(),
                r.polytope == read_skew_members(doc.nodes@, all.take(k as int)),
            decreases members.len() - k,
        {
            assert(all.take(k + 1).drop_last() =~= all.take(k as int));
            let (_, n) = members[k];
            r.polytope = match Polytope::from_name(&doc.text(n)) {
                Some(p) => p,
                None => Polytope::Duoprism,
            };
            k = k + 1;
        }
        assert(all.take(all.len() as int) =~= all);
        r
    }

    /// The saved form: a `Skew4DConfig` element holding the polytope's name.
    pub fn write(&self) -> (r: XElement)
        ensures
            r.name@ == "Skew4DConfig"@,
            r.attrs@.len() == 0,
            r.text is None,
            r.children@.len() == 1,
            is_text_element(r.children@[0], "Polytope"@, polytope_name(self.polytope)),
    {
        XElement::new("Skew4DConfig").child(XElement::with_text("Polytope", self.polytope.name()))
    }
}

/// "Lights on" puzzles, where clicking toggles tiles instead of twisting.
#[derive(Clone, Copy, Debug, PartialEq, Eq, Structural)]
pub enum TogglingMode {
    NeighborsOnly,
    NeighborsAndSelf,
}

} // verus!
