use vstd::prelude::*;
use vstd::string::*;
use crate::scan_type::{ScanType, spec_size, spec_is_float};
use crate::saved::{SavedAddress, is_fresh, entry_view, new_saved_address};
use crate::text::{
    spec_trim, spec_trim_matches, spec_parse_int, hex_upper_string, decimal_string, nat_digits, str_eq, trim, trim_matches_char,
    parse_int, format_hex_upper, lemma_parse_hex_string, lemma_trim_matches_wrapped,
};

verus! {

/// A child node of an XML node: its tag name (empty when it is not an
/// element) and its text.
pub struct XmlChild {
    pub tag: String,
    pub text: Option<String>,
}

/// A node of an XML document in document order: its tag name (empty when it
/// is not an element), its text, and its children.
pub struct XmlNode {
    pub tag: String,
    pub text: Option<String>,
    pub children: Vec<XmlChild>,
}

/// The optional text, as a sequence.
pub open spec fn opt_text(t: Option<String>) -> Option<Seq<char>> {
    match t {
        Some(s) => Some(s@),
        None => None,
    }
}

/// A child as (tag, text).
pub open spec fn child_view(c: XmlChild) -> (Seq<char>, Option<Seq<char>>) {
    (c.tag@, opt_text(c.text))
}

/// A node as (tag, text, children).
pub open spec fn node_view(n: XmlNode) -> (Seq<char>, Option<Seq<char>>, Seq<(Seq<char>, Option<Seq<char>>)>) {
    (n.tag@, opt_text(n.text), n.children@.map_values(|c: XmlChild| child_view(c)))
}

/// The nodes, as views.
pub open spec fn nodes_view(ns: Seq<XmlNode>) -> Seq<(Seq<char>, Option<Seq<char>>, Seq<(Seq<char>, Option<Seq<char>>)>)> {
    ns.map_values(|n: XmlNode| node_view(n))
}

/// What `roxmltree` makes of an XML text: `None` when it rejects the text,
/// otherwise every node of the document in document order with its tag
/// name, text and children.
pub uninterp spec fn xml_outline(text: Seq<char>) -> Option<
    Seq<(Seq<char>, Option<Seq<char>>, Seq<(Seq<char>, Option<Seq<char>>)>)>,
>;

#[verifier::external_type_specification]
#[verifier::external_body]
pub struct ExXmlError(roxmltree::Error);

/// Parses `text` with `roxmltree::Document::parse` and lists the nodes that
/// `Document::descendants` yields, each with `tag_name().name()` (empty for a
/// node that is not an element), `text()`, and the same two for each node of
/// `children()`. The contract says only that the outline is a function of
/// the text (named `xml_outline`) and that an error comes exactly when the
/// name gives none; what XML the parser accepts and what tree it builds is
/// left to `roxmltree`.
#[verifier::external_body]
fn parse_xml_outline(text: &str) -> (r: Result<Vec<XmlNode>, roxmltree::Error>)
    ensures
        r is Ok <==> xml_outline(text@) is Some,
        r matches Ok(v) ==> nodes_view(v@) == xml_outline(text@)->0,
{
    roxmltree::Document::parse(text).map(|doc| doc.descendants().map(|n| XmlNode {
        tag: n.tag_name().name().to_string(),
        text: n.text().map(|t| t.to_string()),
        children: n.children().map(|c| XmlChild {
            tag: c.tag_name().name().to_string(),
            text: c.text().map(|t| t.to_string()),
        }).collect(),
    }).collect())
}

/// The type that a cheat table's `VariableType` names (`4 Bytes` for a
/// name it does not know).
pub open spec fn ct_type_from_name(s: Seq<char>) -> ScanType {
    if s == "Byte"@ {
        ScanType::I8
    } else if s == "2 Bytes"@ {
        ScanType::I16
    } else if s == "4 Bytes"@ {
        ScanType::I32
    } else if s == "8 Bytes"@ {
        ScanType::I64
    } else if s == "Float"@ {
        ScanType::F32
    } else if s == "Double"@ {
        ScanType::F64
    } else {
        ScanType::I32
    }
}

/// The `VariableType` name under which a type is written to a cheat table.
pub open spec fn ct_type_name(t: ScanType) -> Seq<char> {
    match t {
        ScanType::I8 => "Byte"@,
        ScanType::I16 => "2 Bytes"@,
        ScanType::I32 => "4 Bytes"@,
        ScanType::I64 => "8 Bytes"@,
        ScanType::F32 => "Float"@,
        ScanType::F64 => "Double"@,
    }
}

/// The type named by a cheat table's `VariableType` text.
pub fn scan_type_from_ct_name(s: &str) -> (r: ScanType)
    ensures
        r == ct_type_from_name(s@),
{
    if str_eq(s, "Byte") {
        ScanType::I8
    } else if str_eq(s, "2 Bytes") {
        ScanType::I16
    } else if str_eq(s, "4 Bytes") {
        ScanType::I32
    } else if str_eq(s, "8 Bytes") {
        ScanType::I64
    } else if str_eq(s, "Float") {
        ScanType::F32
    } else if str_eq(s, "Double") {
        ScanType::F64
    } else {
        ScanType::I32
    }
}

/// The `VariableType` name of a type.
pub fn ct_name_of_scan_type(t: ScanType) -> (r: &'static str)
    ensures
        r@ == ct_type_name(t),
{
    match t {
        ScanType::I8 => "Byte",
        ScanType::I16 => "2 Bytes",
        ScanType::I32 => "4 Bytes",
        ScanType::I64 => "8 Bytes",
        ScanType::F32 => "Float",
        ScanType::F64 => "Double",
    }
}

/// The description, address, type and presence of an address of a
/// `CheatEntry` once its first `k` children are read: a `Description` sets
/// the description (without surrounding double quotes), a `VariableType` the
/// type, and an `Address` whose trimmed text is a hex number the address.
pub open spec fn entry_fields(children: Seq<(Seq<char>, Option<Seq<char>>)>, k: nat) -> (Seq<char>, int, ScanType, bool)
    decreases k,
{
    if k == 0 || k > children.len() {
        ("Imported Address"@, 0, ScanType::I32, false)
    } else {
        let (d, a, t, h) = entry_fields(children, (k - 1) as nat);
        let (tag, text) = children[k - 1];
        match text {
            None => (d, a, t, h),
            Some(x) => if tag == "Description"@ {
                (spec_trim_matches(x, '"'), a, t, h)
            } else if tag == "VariableType"@ {
                (d, a, ct_type_from_name(x), h)
            } else if tag == "Address"@ {
                match spec_parse_int(spec_trim(x), 16, false, 0, usize::MAX as int) {
                    Some(v) => (d, v, t, true),
                    None => (d, a, t, h),
                }
            } else {
                (d, a, t, h)
            },
        }
    }
}

/// The address that a child of a `CheatEntry` gives: the hex number in the
/// trimmed text of an `Address` element, when it is one.
pub open spec fn child_hex_address(c: (Seq<char>, Option<Seq<char>>)) -> Option<int> {
    if c.0 == "Address"@ && c.1 is Some {
        spec_parse_int(spec_trim(c.1->0), 16, false, 0, usize::MAX as int)
    } else {
        None
    }
}

/// A `CheatEntry` has an address exactly when one of its children is an
/// `Address` whose text is a hex number, and the address is that of the last
/// such child (0 when there is none): an `Address` that does not parse
/// changes nothing.
pub proof fn lemma_entry_address_is_last_hex(children: Seq<(Seq<char>, Option<Seq<char>>)>, k: nat)
    requires
        k <= children.len(),
    ensures
        entry_fields(children, k).3 <==> exists|i: int| 0 <= i < k && (#[trigger] child_hex_address(children[i])) is Some,
        entry_fields(children, k).3 ==> exists|i: int|
            0 <= i < k && #[trigger] child_hex_address(children[i]) == Some(entry_fields(children, k).1) && forall|
                j: int,
            |
                i < j < k ==> (#[trigger] child_hex_address(children[j])) is None,
        !entry_fields(children, k).3 ==> entry_fields(children, k).1 == 0,
    decreases k,
{
    if k > 0 {
        lemma_entry_address_is_last_hex(children, (k - 1) as nat);
        let prev = entry_fields(children, (k - 1) as nat);
        let cur = entry_fields(children, k);
        let c = children[k - 1];
        reveal_strlit("Description");
        reveal_strlit("VariableType");
        reveal_strlit("Address");
        assert("Description"@.len() == 11);
        assert("VariableType"@.len() == 12);
        assert("Address"@.len() == 7);
        if child_hex_address(c) is Some {
            assert(cur.3 && cur.1 == child_hex_address(c)->0);
            assert(child_hex_address(children[k - 1]) == Some(cur.1));
        } else {
            assert(cur.1 == prev.1 && cur.3 == prev.3);
            if cur.3 {
                let i = choose|i: int|
                    0 <= i < k - 1 && #[trigger] child_hex_address(children[i]) == Some(prev.1) && forall|j: int|
                        i < j < k - 1 ==> (#[trigger] child_hex_address(children[j])) is None;
                assert(forall|j: int| i < j < k ==> (#[trigger] child_hex_address(children[j])) is None);
            }
            if exists|i: int| 0 <= i < k && (#[trigger] child_hex_address(children[i])) is Some {
                let i = choose|i: int| 0 <= i < k && (#[trigger] child_hex_address(children[i])) is Some;
                assert(i < k - 1);
            }
        }
    }
}

/// The saved entries (address, description, type) and the script that the
/// first `k` nodes of a cheat table give: the text of the last `LuaScript`
/// element is the script, and every `CheatEntry` with an address is an entry.
pub open spec fn table_upto(
    nodes: Seq<(Seq<char>, Option<Seq<char>>, Seq<(Seq<char>, Option<Seq<char>>)>)>,
    k: nat,
) -> (Seq<(int, Seq<char>, ScanType)>, Seq<char>)
    decreases k,
{
    if k == 0 || k > nodes.len() {
        (seq![], seq![])
    } else {
        let (es, script) = table_upto(nodes, (k - 1) as nat);
        let (tag, text, children) = nodes[k - 1];
        if tag == "LuaScript"@ {
            (es, match text {
                Some(x) => x,
                None => script,
            })
        } else if tag == "CheatEntry"@ {
            let (d, a, t, h) = entry_fields(children, children.len());
            (if h { es.push((a, d, t)) } else { es }, script)
        } else {
            (es, script)
        }
    }
}

/// The entries of a saved list.
pub open spec fn entries_view(saved: Seq<SavedAddress>) -> Seq<(int, Seq<char>, ScanType)> {
    saved.map_values(|a: SavedAddress| entry_view(a))
}

/// Reads the fields of a `CheatEntry` from its children.
fn cheat_entry_fields(children: &Vec<XmlChild>) -> (r: (String, usize, ScanType, bool))
    ensures
        (r.0@, r.1 as int, r.2, r.3) == entry_fields(
            children@.map_values(|c: XmlChild| child_view(c)),
            children@.len(),
        ),
{
    let ghost cv = children@.map_values(|c: XmlChild| child_view(c));
    let mut description = String::from_str("Imported Address");
    let mut addr_val: usize = 0;
    let mut scan_type = ScanType::I32;
    let mut has_addr = false;
    let mut i: usize = 0;
    let umax: i128 = usize::MAX as i128;
    while i < children.len()
        invariant
            i <= children@.len(),
            cv == children@.map_values(|c: XmlChild| child_view(c)),
            umax == usize::MAX,
            (description@, addr_val as int, scan_type, has_addr) == entry_fields(cv, i as nat),
        decreases children@.len() - i,
    {
        let child = &children[i];
        assert(cv[i as int] == child_view(*child));
        match &child.text {
            None => {},
            Some(text) => {
                if str_eq(child.tag.as_str(), "Description") {
                    description = String::from_str(trim_matches_char(text.as_str(), '"'));
                } else if str_eq(child.tag.as_str(), "VariableType") {
                    scan_type = scan_type_from_ct_name(text.as_str());
                } else if str_eq(child.tag.as_str(), "Address") {
                    match parse_int(trim(text.as_str()), 16, false, 0, umax) {
                        Some(v) => {
                            addr_val = v as usize;
                            has_addr = true;
                        },
                        None => {},
                    }
                }
            },
        }
        i = i + 1;
    }
    (description, addr_val, scan_type, has_addr)
}

/// The saved addresses and the script that the nodes of a cheat table give.
pub fn cheat_table_from_outline(nodes: &Vec<XmlNode>) -> (r: (Vec<SavedAddress>, String))
    ensures
        (entries_view(r.0@), r.1@) == table_upto(nodes_view(nodes@), nodes@.len()),
        forall|i: int| 0 <= i < r.0@.len() ==> is_fresh(#[trigger] r.0@[i]),
{
    let ghost nv = nodes_view(nodes@);
    let mut addresses: Vec<SavedAddress> = Vec::new();
    let mut script_content = String::new();
    let mut i: usize = 0;
    while i < nodes.len()
        invariant
            i <= nodes@.len(),
            nv == nodes_view(nodes@),
            (entries_view(addresses@), script_content@) == table_upto(nv, i as nat),
            forall|k: int| 0 <= k < addresses@.len() ==> is_fresh(#[trigger] addresses@[k]),
        decreases nodes@.len() - i,
    {
        let node = &nodes[i];
        assert(nv[i as int] == node_view(*node));
        if str_eq(node.tag.as_str(), "LuaScript") {
            match &node.text {
                Some(text) => {
                    script_content = text.clone();
                },
                None => {},
            }
        } else if str_eq(node.tag.as_str(), "CheatEntry") {
            let (description, addr_val, scan_type, has_addr) = cheat_entry_fields(&node.children);
            if has_addr {
                let ghost before = addresses@;
                addresses.push(new_saved_address(addr_val, description, scan_type));
                assert(entries_view(addresses@) =~= entries_view(before).push(
                    (addr_val as int, description@, scan_type),
                ));
            }
        }
        i = i + 1;
    }
    (addresses, script_content)
}

/// Why a cheat table could not be read.
pub enum CheatTableError {
    /// The text is not XML that the parser accepts.
    Xml(roxmltree::Error),
}

/// Reads a cheat table: the saved addresses of its `CheatEntry` elements
/// that have an address, and the script of its (last) `LuaScript` element.
/// Fails exactly when the text is not accepted as XML.
pub fn import_cheat_engine_ct(xml: &str) -> (r: Result<(Vec<SavedAddress>, String), CheatTableError>)
    ensures
        r is Ok <==> xml_outline(xml@) is Some,
        r matches Ok(v) ==> (entries_view(v.0@), v.1@) == table_upto(
            xml_outline(xml@)->0,
            xml_outline(xml@)->0.len(),
        ),
        r matches Ok(v) ==> forall|i: int| 0 <= i < v.0@.len() ==> is_fresh(#[trigger] v.0@[i]),
{
    match parse_xml_outline(xml) {
        Ok(nodes) => Ok(cheat_table_from_outline(&nodes)),
        Err(e) => Err(CheatTableError::Xml(e)),
    }
}

/// The XML of one saved entry in a cheat table.
pub open spec fn entry_xml(e: (int, Seq<char>, ScanType)) -> Seq<char> {
    "    <CheatEntry>\n"@ + "      <ID>0</ID>\n"@ + "      <Description>\""@ + e.1 + "\"</Description>\n"@
        + "      <VariableType>"@ + ct_type_name(e.2) + "</VariableType>\n"@ + "      <Address>"@
        + hex_upper_string(e.0 as nat) + "</Address>\n"@ + "    </CheatEntry>\n"@
}

/// The XML of the saved entries, one after the other.
pub open spec fn entries_xml(es: Seq<(int, Seq<char>, ScanType)>) -> Seq<char>
    decreases es.len(),
{
    if es.len() == 0 {
        seq![]
    } else {
        entries_xml(es.drop_last()) + entry_xml(es.last())
    }
}

/// The cheat table written for a script and the saved entries: an XML
/// declaration, the `CheatTable` element with its `CheatEntries`, and a
/// `LuaScript` element when the script is not empty. Texts are written as
/// they are, without escaping.
pub open spec fn spec_export(content: Seq<char>, es: Seq<(int, Seq<char>, ScanType)>) -> Seq<char> {
    "<?xml version=\"1.0\" encoding=\"utf-8\"?>\n"@ + "<CheatTable CheatEngineTableVersion=\"45\">\n"@
        + "  <CheatEntries>\n"@ + entries_xml(es) + "  </CheatEntries>\n"@ + (if content.len() > 0 {
        "  <LuaScript>"@ + content + "</LuaScript>\n"@
    } else {
        seq![]
    }) + "</CheatTable>\n"@
}

/// Appends the XML of one saved entry.
fn append_entry_xml(xml: &mut String, a: &SavedAddress)
    ensures
        final(xml)@ == old(xml)@ + entry_xml(entry_view(*a)),
{
    xml.append("    <CheatEntry>\n");
    xml.append("      <ID>0</ID>\n");
    xml.append("      <Description>\"");
    xml.append(a.description.as_str());
    xml.append("\"</Description>\n");
    xml.append("      <VariableType>");
    xml.append(ct_name_of_scan_type(a.scan_type));
    xml.append("</VariableType>\n");
    xml.append("      <Address>");
    let hex = format_hex_upper(a.address as u64);
    xml.append(hex.as_str());
    xml.append("</Address>\n");
    xml.append("    </CheatEntry>\n");
    assert(xml@ =~= old(xml)@ + entry_xml(entry_view(*a)));
}

/// Writes the cheat table text for a script and the saved addresses.
pub fn export_cheat_engine_ct(content: &str, addresses: &Vec<SavedAddress>) -> (r: String)
    ensures
        r@ == spec_export(content@, entries_view(addresses@)),
{
    let ghost es = entries_view(addresses@);
    let mut xml = String::new();
    xml.append("<?xml version=\"1.0\" encoding=\"utf-8\"?>\n");
    xml.append("<CheatTable CheatEngineTableVersion=\"45\">\n");
    xml.append("  <CheatEntries>\n");
    let ghost head = xml@;
    let mut i: usize = 0;
    assert(es.take(0) =~= Seq::<(int, Seq<char>, ScanType)>::empty());
    while i < addresses.len()
        invariant
            i <= addresses@.len(),
            es == entries_view(addresses@),
            xml@ == head + entries_xml(es.take(i as int)),
        decreases addresses@.len() - i,
    {
        let a = &addresses[i];
        append_entry_xml(&mut xml, a);
        proof {
            assert(es[i as int] == entry_view(*a));
            assert(es.take(i + 1).drop_last() =~= es.take(i as int));
        }
        i = i + 1;
    }
    assert(es.take(addresses@.len() as int) =~= es);
    xml.append("  </CheatEntries>\n");
    if !content.is_empty() {
        xml.append("  <LuaScript>");
        xml.append(content);
        xml.append("</LuaScript>\n");
    }
    xml.append("</CheatTable>\n");
    proof {
        if content@.len() > 0 {
            assert(xml@ =~= spec_export(content@, es));
        } else {
            assert(xml@ =~= spec_export(content@, es));
        }
    }
    xml
}

/// Cheat Engine's name for a value of `width` bytes: `Float` and `Double`
/// for the 4- and 8-byte floats, `Byte` for a 1-byte integer, and the width
/// followed by ` Bytes` for a wider integer.
pub open spec fn ce_width_name(width: nat, float: bool) -> Seq<char> {
    if float {
        if width == 4 {
            "Float"@
        } else {
            "Double"@
        }
    } else if width == 1 {
        "Byte"@
    } else {
        decimal_string(width as int) + " Bytes"@
    }
}

/// The name under which a type is written to a cheat table is Cheat
/// Engine's name for a value of its width and kind, and reading that name
/// back gives a type of the same width and kind.
pub proof fn lemma_ct_type_name_by_width(t: ScanType)
    ensures
        ct_type_name(t) == ce_width_name(spec_size(t), spec_is_float(t)),
        spec_size(ct_type_from_name(ce_width_name(spec_size(t), spec_is_float(t)))) == spec_size(t),
        spec_is_float(ct_type_from_name(ce_width_name(spec_size(t), spec_is_float(t)))) == spec_is_float(t),
{
    reveal_strlit("Byte");
    reveal_strlit("2 Bytes");
    reveal_strlit("4 Bytes");
    reveal_strlit("8 Bytes");
    reveal_strlit("Float");
    reveal_strlit("Double");
    reveal_strlit(" Bytes");
    reveal_with_fuel(nat_digits, 2);
    assert(decimal_string(2) =~= seq!['2']);
    assert(decimal_string(4) =~= seq!['4']);
    assert(decimal_string(8) =~= seq!['8']);
    assert(seq!['2'] + " Bytes"@ =~= "2 Bytes"@);
    assert(seq!['4'] + " Bytes"@ =~= "4 Bytes"@);
    assert(seq!['8'] + " Bytes"@ =~= "8 Bytes"@);
    lemma_ct_type_name_roundtrip(t);
}

/// Writing a type's name to a cheat table and reading it back gives the type.
pub proof fn lemma_ct_type_name_roundtrip(t: ScanType)
    ensures
        ct_type_from_name(ct_type_name(t)) == t,
{
    reveal_strlit("Byte");
    reveal_strlit("2 Bytes");
    reveal_strlit("4 Bytes");
    reveal_strlit("8 Bytes");
    reveal_strlit("Float");
    reveal_strlit("Double");
    assert("Byte"@.len() == 4);
    assert("2 Bytes"@.len() == 7 && "2 Bytes"@[0] == '2');
    assert("4 Bytes"@.len() == 7 && "4 Bytes"@[0] == '4');
    assert("8 Bytes"@.len() == 7 && "8 Bytes"@[0] == '8');
    assert("Float"@.len() == 5);
    assert("Double"@.len() == 6);
}


/// The tags of the children of a `CheatEntry` that reading uses.
pub open spec fn is_field_tag(t: Seq<char>) -> bool {
    t == "Description"@ || t == "VariableType"@ || t == "Address"@
}

/// The tags of the nodes of a table that reading uses.
pub open spec fn is_table_tag(t: Seq<char>) -> bool {
    t == "CheatEntry"@ || t == "LuaScript"@
}

/// The children of the `CheatEntry` element of a saved entry, as a written
/// table holds them, leaving out those that reading does not look at: its
/// description in double quotes, its type's name and its address in hex.
pub open spec fn field_children(e: (int, Seq<char>, ScanType)) -> Seq<(Seq<char>, Option<Seq<char>>)> {
    seq![
        ("Description"@, Some(seq!['"'] + e.1 + seq!['"'])),
        ("VariableType"@, Some(ct_type_name(e.2))),
        ("Address"@, Some(hex_upper_string(e.0 as nat))),
    ]
}

/// A saved entry that a table can carry back unchanged: its address fits a
/// `usize` and its description does not begin or end with a double quote.
pub open spec fn is_writable_entry(e: (int, Seq<char>, ScanType)) -> bool {
    &&& 0 <= e.0 <= usize::MAX
    &&& e.1.len() == 0 || (e.1[0] != '"' && e.1.last() != '"')
}

/// Reading the children of an entry looks only at those read so far.
proof fn lemma_entry_fields_prefix(
    s: Seq<(Seq<char>, Option<Seq<char>>)>,
    t: Seq<(Seq<char>, Option<Seq<char>>)>,
    j: nat,
)
    requires
        j <= s.len(),
        j <= t.len(),
        s.take(j as int) == t.take(j as int),
    ensures
        entry_fields(s, j) == entry_fields(t, j),
    decreases j,
{
    if j > 0 {
        assert(s.take(j - 1) =~= s.take(j as int).take(j - 1));
        assert(t.take(j - 1) =~= t.take(j as int).take(j - 1));
        assert(s[j - 1] == s.take(j as int)[j - 1]);
        assert(t[j - 1] == t.take(j as int)[j - 1]);
        lemma_entry_fields_prefix(s, t, (j - 1) as nat);
    }
}

/// Reading the children of an entry gives what reading only its
/// `Description`, `VariableType` and `Address` children gives.
pub proof fn lemma_entry_fields_ignore_others(children: Seq<(Seq<char>, Option<Seq<char>>)>, k: nat)
    requires
        k <= children.len(),
    ensures
        entry_fields(children, k) == entry_fields(
            children.take(k as int).filter(|c: (Seq<char>, Option<Seq<char>>)| is_field_tag(c.0)),
            children.take(k as int).filter(|c: (Seq<char>, Option<Seq<char>>)| is_field_tag(c.0)).len(),
        ),
    decreases k,
{
    let p = |c: (Seq<char>, Option<Seq<char>>)| is_field_tag(c.0);
    if k == 0 {
        reveal(Seq::filter);
        assert(children.take(0).filter(p) =~= Seq::<(Seq<char>, Option<Seq<char>>)>::empty());
    } else {
        lemma_entry_fields_ignore_others(children, (k - 1) as nat);
        let prev = children.take(k - 1);
        let c = children[k - 1];
        assert(children.take(k as int) =~= prev.push(c));
        prev.lemma_filter_push(c, p);
        let fp = prev.filter(p);
        if p(c) {
            let fk = fp.push(c);
            assert(fk.take(fp.len() as int) =~= fp.take(fp.len() as int));
            lemma_entry_fields_prefix(fk, fp, fp.len());
            assert(fp.take(fp.len() as int) =~= fp);
        } else {
            reveal_strlit("Description");
            reveal_strlit("VariableType");
            reveal_strlit("Address");
        }
    }
}

/// A written entry's children read back as the entry, with an address.
pub proof fn lemma_field_children_read_back(e: (int, Seq<char>, ScanType))
    requires
        is_writable_entry(e),
    ensures
        entry_fields(field_children(e), 3) == (e.1, e.0, e.2, true),
{
    reveal_strlit("Description");
    reveal_strlit("VariableType");
    reveal_strlit("Address");
    assert("Description"@.len() == 11);
    assert("VariableType"@.len() == 12);
    assert("Address"@.len() == 7);
    let fc = field_children(e);
    lemma_trim_matches_wrapped(e.1, '"');
    lemma_ct_type_name_roundtrip(e.2);
    lemma_parse_hex_string(e.0 as nat, usize::MAX as int);
    assert(entry_fields(fc, 0) == ("Imported Address"@, 0int, ScanType::I32, false));
    assert(fc[0].0 == "Description"@);
    assert(entry_fields(fc, 1) == (e.1, 0int, ScanType::I32, false));
    assert(entry_fields(fc, 2) == (e.1, 0int, e.2, false));
}

/// Reading a table looks only at the nodes read so far.
proof fn lemma_table_upto_prefix(
    s: Seq<(Seq<char>, Option<Seq<char>>, Seq<(Seq<char>, Option<Seq<char>>)>)>,
    t: Seq<(Seq<char>, Option<Seq<char>>, Seq<(Seq<char>, Option<Seq<char>>)>)>,
    j: nat,
)
    requires
        j <= s.len(),
        j <= t.len(),
        s.take(j as int) == t.take(j as int),
    ensures
        table_upto(s, j) == table_upto(t, j),
    decreases j,
{
    if j > 0 {
        assert(s.take(j - 1) =~= s.take(j as int).take(j - 1));
        assert(t.take(j - 1) =~= t.take(j as int).take(j - 1));
        assert(s[j - 1] == s.take(j as int)[j - 1]);
        assert(t[j - 1] == t.take(j as int)[j - 1]);
        lemma_table_upto_prefix(s, t, (j - 1) as nat);
    }
}

/// Reading a table gives what reading only its `CheatEntry` and
/// `LuaScript` nodes gives.
pub proof fn lemma_table_ignores_others(
    nodes: Seq<(Seq<char>, Option<Seq<char>>, Seq<(Seq<char>, Option<Seq<char>>)>)>,
    k: nat,
)
    requires
        k <= nodes.len(),
    ensures
        table_upto(nodes, k) == table_upto(
            nodes.take(k as int).filter(
                |n: (Seq<char>, Option<Seq<char>>, Seq<(Seq<char>, Option<Seq<char>>)>)| is_table_tag(n.0),
            ),
            nodes.take(k as int).filter(
                |n: (Seq<char>, Option<Seq<char>>, Seq<(Seq<char>, Option<Seq<char>>)>)| is_table_tag(n.0),
            ).len(),
        ),
    decreases k,
{
    let p = |n: (Seq<char>, Option<Seq<char>>, Seq<(Seq<char>, Option<Seq<char>>)>)| is_table_tag(n.0);
    if k == 0 {
        reveal(Seq::filter);
        assert(nodes.take(0).filter(p) =~= Seq::<
            (Seq<char>, Option<Seq<char>>, Seq<(Seq<char>, Option<Seq<char>>)>),
        >::empty());
    } else {
        lemma_table_ignores_others(nodes, (k - 1) as nat);
        let prev = nodes.take(k - 1);
        let x = nodes[k - 1];
        assert(nodes.take(k as int) =~= prev.push(x));
        prev.lemma_filter_push(x, p);
        let fp = prev.filter(p);
        if p(x) {
            let fk = fp.push(x);
            assert(fk.take(fp.len() as int) =~= fp.take(fp.len() as int));
            lemma_table_upto_prefix(fk, fp, fp.len());
            assert(fp.take(fp.len() as int) =~= fp);
        } else {
            reveal_strlit("CheatEntry");
            reveal_strlit("LuaScript");
        }
    }
}

/// The `CheatEntry` and `LuaScript` nodes of a table are those written for
/// `content` and `es`: one entry element per saved entry, in order, whose
/// description, type and address children are the written ones, and then,
/// when the script is not empty, a script element that holds it.
pub open spec fn holds_written_table(
    nodes: Seq<(Seq<char>, Option<Seq<char>>, Seq<(Seq<char>, Option<Seq<char>>)>)>,
    content: Seq<char>,
    es: Seq<(int, Seq<char>, ScanType)>,
) -> bool {
    let r = nodes.filter(
        |n: (Seq<char>, Option<Seq<char>>, Seq<(Seq<char>, Option<Seq<char>>)>)| is_table_tag(n.0),
    );
    &&& r.len() == es.len() + if content.len() > 0 { 1int } else { 0int }
    &&& forall|i: int|
        0 <= i < es.len() ==> (#[trigger] r[i]).0 == "CheatEntry"@ && r[i].2.filter(
            |c: (Seq<char>, Option<Seq<char>>)| is_field_tag(c.0),
        ) == field_children(es[i])
    &&& content.len() > 0 ==> r[es.len() as int].0 == "LuaScript"@ && r[es.len() as int].1 == Some(content)
}

/// Reading the entries of a written table, one node at a time.
proof fn lemma_read_written_entries(
    r: Seq<(Seq<char>, Option<Seq<char>>, Seq<(Seq<char>, Option<Seq<char>>)>)>,
    es: Seq<(int, Seq<char>, ScanType)>,
    k: nat,
)
    requires
        k <= es.len() <= r.len(),
        forall|i: int| 0 <= i < es.len() ==> is_writable_entry(#[trigger] es[i]),
        forall|i: int|
            0 <= i < es.len() ==> (#[trigger] r[i]).0 == "CheatEntry"@ && r[i].2.filter(
                |c: (Seq<char>, Option<Seq<char>>)| is_field_tag(c.0),
            ) == field_children(es[i]),
    ensures
        table_upto(r, k) == (es.take(k as int), Seq::<char>::empty()),
    decreases k,
{
    if k > 0 {
        lemma_read_written_entries(r, es, (k - 1) as nat);
        let x = r[k - 1];
        let e = es[k - 1];
        assert(x.0 == "CheatEntry"@);
        assert(x.0 != "LuaScript"@) by {
            reveal_strlit("CheatEntry");
            reveal_strlit("LuaScript");
            assert("CheatEntry"@.len() == 10);
            assert("LuaScript"@.len() == 9);
        }
        lemma_entry_fields_ignore_others(x.2, x.2.len());
        assert(x.2.take(x.2.len() as int) =~= x.2);
        lemma_field_children_read_back(e);
        assert(es.take(k as int) =~= es.take(k - 1).push(e));
    } else {
        assert(es.take(0) =~= Seq::<(int, Seq<char>, ScanType)>::empty());
    }
}

/// A table reads back as it was written: whatever else its tree holds,
/// when its `CheatEntry` and `LuaScript` nodes are those written for a
/// script and saved entries, reading it gives those entries and that script
/// back (given addresses that fit a `usize` and descriptions that do not
/// begin or end with a double quote).
pub proof fn lemma_written_table_reads_back(
    nodes: Seq<(Seq<char>, Option<Seq<char>>, Seq<(Seq<char>, Option<Seq<char>>)>)>,
    content: Seq<char>,
    es: Seq<(int, Seq<char>, ScanType)>,
)
    requires
        forall|i: int| 0 <= i < es.len() ==> is_writable_entry(#[trigger] es[i]),
        holds_written_table(nodes, content, es),
    ensures
        table_upto(nodes, nodes.len()) == (es, content),
{
    let p = |n: (Seq<char>, Option<Seq<char>>, Seq<(Seq<char>, Option<Seq<char>>)>)| is_table_tag(n.0);
    lemma_table_ignores_others(nodes, nodes.len());
    assert(nodes.take(nodes.len() as int) =~= nodes);
    let r = nodes.filter(p);
    lemma_read_written_entries(r, es, es.len());
    assert(es.take(es.len() as int) =~= es);
    if content.len() > 0 {
        assert(r.len() == es.len() + 1);
        reveal_strlit("LuaScript");
    }
}

} // verus!
