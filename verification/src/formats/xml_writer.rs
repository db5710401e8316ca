//! Writing XML through the `xmlwriter` crate. What a writer holds is named
//! by the calls made on it: each element started, each attribute written and
//! each element ended, in order; the document's text is a function of those
//! calls.
use vstd::prelude::*;

verus! {

#[verifier::external_type_specification]
#[verifier::external_body]
pub struct ExXmlWriter(xmlwriter::XmlWriter);

/// A call made on a writer: `0` starts an element with a name, `1` writes an
/// attribute with a name and a value, `2` ends the open element.
pub type XmlCall = (u8, Seq<char>, Seq<char>);

/// The calls made on the writer `w`, in order.
pub uninterp spec fn xml_calls(w: xmlwriter::XmlWriter) -> Seq<(u8, Seq<char>, Seq<char>)>;

/// The document text that `end_document` gives after the calls `calls` on a
/// writer with the default options.
pub uninterp spec fn xml_document_text(calls: Seq<(u8, Seq<char>, Seq<char>)>) -> Seq<char>;

/// Starting an element.
pub open spec fn start_call(name: Seq<char>) -> XmlCall {
    (0u8, name, Seq::empty())
}

/// Writing an attribute.
pub open spec fn attr_call(name: Seq<char>, value: Seq<char>) -> XmlCall {
    (1u8, name, value)
}

/// Ending the open element.
pub open spec fn end_call() -> XmlCall {
    (2u8, Seq::empty(), Seq::empty())
}

/// After `calls`, an element is open for attributes: the last call started
/// an element or wrote an attribute.
pub open spec fn attributes_open(calls: Seq<XmlCall>) -> bool {
    calls.len() > 0 && (calls.last().0 == 0u8 || calls.last().0 == 1u8)
}

/// `XmlWriter::new` with the default options (four spaces of indentation,
/// double quotes): a writer on which no call was made.
#[verifier::external_body]
pub(crate) fn xml_new() -> (w: xmlwriter::XmlWriter)
    ensures
        xml_calls(w) == Seq::<XmlCall>::empty(),
{
    xmlwriter::XmlWriter::new(xmlwriter::Options::default())
}

/// `XmlWriter::start_element`: records the element's start.
#[verifier::external_body]
pub(crate) fn xml_start(w: &mut xmlwriter::XmlWriter, name: &str)
    ensures
        xml_calls(*final(w)) == xml_calls(*old(w)).push(start_call(name@)),
{
    w.start_element(name);
}

/// `XmlWriter::write_attribute` with a string value: records the attribute.
/// It panics unless an element is open for attributes, so that is required.
#[verifier::external_body]
pub(crate) fn xml_attr(w: &mut xmlwriter::XmlWriter, name: &str, value: &str)
    requires
        attributes_open(xml_calls(*old(w))),
    ensures
        xml_calls(*final(w)) == xml_calls(*old(w)).push(attr_call(name@, value@)),
{
    w.write_attribute(name, value);
}

/// `XmlWriter::end_element`: records the end of the open element.
#[verifier::external_body]
pub(crate) fn xml_end(w: &mut xmlwriter::XmlWriter)
    ensures
        xml_calls(*final(w)) == xml_calls(*old(w)).push(end_call()),
{
    w.end_element();
}

/// `XmlWriter::end_document`: the text of the document the calls made.
#[verifier::external_body]
pub(crate) fn xml_finish(w: xmlwriter::XmlWriter) -> (s: String)
    ensures
        s@ == xml_document_text(xml_calls(w)),
{
    w.end_document()
}

} // verus!
