//! The mapping file that the program writes.
use crate::xml_generator::{escape, with_attribute, XMLElement, XmlContent, XmlNode};
use vstd::prelude::*;

verus! {

/// The schema of the mapping set.
pub open spec fn schema_url() -> Seq<char> {
    "https://www.worldline.com/namespaces/fs/ita/3ds/acs/business/config/v1/profileset"@
}

/// The document of the mapping file: a `MapSet` for the profile-set schema
/// holding one `Mapping` of `acspst:ProfileSet` to `SQL:ProfileSet`.
pub open spec fn mapping_node() -> XmlNode {
    XmlNode {
        name: "MapSet"@,
        attributes: with_attribute(Seq::empty(), "forSchema"@, escape(schema_url())),
        content: XmlContent::Elements(
            seq![
                XmlNode {
                    name: "Mapping"@,
                    attributes: with_attribute(
                        with_attribute(Seq::empty(), "sourceNodePath"@, escape("acspst:ProfileSet"@)),
                        "targetTable"@,
                        escape("SQL:ProfileSet"@),
                    ),
                    content: XmlContent::Empty,
                },
            ],
        ),
    }
}

/// Generate the mapping element (the program writes its document to a file).
pub fn mapping() -> (person: XMLElement)
    ensures
        person.model() == mapping_node(),
        person.wf(),
{
    let mut person = XMLElement::new("MapSet");
    person.add_attribute(
        "forSchema",
        "https://www.worldline.com/namespaces/fs/ita/3ds/acs/business/config/v1/profileset",
    );
    let mut name = XMLElement::new("Mapping");
    name.add_attribute("sourceNodePath", "acspst:ProfileSet");
    name.add_attribute("targetTable", "SQL:ProfileSet");
    let ghost child = name.model();
    person.add_child(name);
    assert(Seq::<XmlNode>::empty().push(child) =~= seq![child]);
    person
}

} // verus!
