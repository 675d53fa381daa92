use vstd::prelude::*;
use std::borrow::Cow;
use quick_xml::events::BytesStart;
use quick_xml::events::Event::{Empty as EmptyTag, End as EndTag, Eof as EndOfInput, Start as StartTag, Text as Chars};
use quick_xml::reader::Reader;
use crate::loader::{events_accepted, initial_state, load_spec, SchedulePlugin};
use crate::model::World;
use crate::xml::{events_view, XmlAttribute, XmlElement, XmlEvent, XmlEventView};
use crate::xml::XmlEvent::{Empty, End, Eof, Error, Other, Start, Text};

verus! {

#[verifier::external_type_specification]
#[verifier::external_body]
#[verifier::reject_recursive_types(R)]
pub struct ExXmlReader<R>(Reader<R>);

/// Names the events that a quick_xml `Reader` made by `Reader::from_reader`
/// over `text`, with `trim_text(true)`, yields through `read_event`, taken
/// as plain values, up to and including the first end-of-input event.
pub uninterp spec fn quick_xml_events(text: Seq<u8>) -> Seq<XmlEventView>;

/// Names the events still to come from a quick_xml reader, up to and
/// including the next end of input.
pub uninterp spec fn reader_pending(r: Reader<&[u8]>) -> Seq<XmlEventView>;

/// Whether the events end with the end of input and hold no other.
pub open spec fn ends_at_eof(events: Seq<XmlEventView>) -> bool {
    &&& events.len() > 0
    &&& events.last() is Eof
    &&& forall|i: int| 0 <= i < events.len() - 1 ==> !(#[trigger] events[i] is Eof)
}

/// Calls `quick_xml::reader::Reader::from_reader` on `text` and turns on
/// `trim_text`. Claimed: what the reader will yield is the named sequence
/// for `text`, and that sequence ends at its first end-of-input event. On
/// a byte slice every other event consumes input (ill-formed input is
/// consumed before the error is returned; any other error ends the input),
/// so the end of input comes.
#[verifier::external_body]
fn xml_reader(text: &[u8]) -> (r: Reader<&[u8]>)
    ensures
        reader_pending(r) == quick_xml_events(text@),
        ends_at_eof(reader_pending(r)),
{
    let mut r = Reader::from_reader(text);
    r.config_mut().trim_text(true);
    r
}

/// Calls quick_xml's `Reader::read_event` and converts the event: names
/// lossily to strings, attributes (those that parse) with their unescaped
/// values, text decoded. Claimed: the event is the next one still to come;
/// when it is not the end of input, the rest are still to come. (After the
/// end of input, quick_xml yields it again on every call: nothing is
/// claimed of the reader then.)
#[verifier::external_body]
fn read_xml_event(r: &mut Reader<&[u8]>) -> (ev: XmlEvent)
    ensures
        reader_pending(*old(r)).len() > 0 ==> ev@ == reader_pending(*old(r))[0],
        !(ev@ is Eof) ==> reader_pending(*final(r)) == reader_pending(*old(r)).drop_first(),
{
    let s = |b: &[u8]| String::from_utf8_lossy(b).into_owned();
    let el = |e: BytesStart| XmlElement { name: s(e.name().0), attributes: e.attributes().flatten()
        .map(|a| XmlAttribute { key: s(a.key.0), value: a.unescape_value().ok().map(Cow::into_owned) })
        .collect() };
    r.read_event().map_or(Error, |ev| match ev {
        StartTag(e) => Start(el(e)),
        EmptyTag(e) => Empty(el(e)),
        EndTag(e) => End(s(e.name().0)),
        Chars(e) => Text(e.decode().ok().map(Cow::into_owned)),
        EndOfInput => Eof,
        _ => Other,
    })
}

/// The events of an XML document, read with quick_xml up to the end of
/// input.
pub fn read_xml_events(text: &[u8]) -> (res: Vec<XmlEvent>)
    ensures
        events_view(res@) == quick_xml_events(text@),
{
    let mut reader = xml_reader(text);
    let ghost all = quick_xml_events(text@);
    let mut res: Vec<XmlEvent> = Vec::new();
    loop
        invariant_except_break
            ends_at_eof(all),
            events_view(res@) + reader_pending(reader) == all,
            reader_pending(reader).len() > 0,
            forall|i: int| 0 <= i < res@.len() ==> !(#[trigger] res@[i]@ is Eof),
        ensures
            events_view(res@) == all,
        decreases reader_pending(reader).len(),
    {
        let ghost before = reader_pending(reader);
        let ghost done = events_view(res@);
        let ev = read_xml_event(&mut reader);
        let eof = ev.is_eof();
        res.push(ev);
        proof {
            assert(events_view(res@) =~= done.push(before[0]));
            assert(all[done.len() as int] == before[0]);
        }
        if eof {
            proof {
                assert(done.len() == all.len() - 1) by {
                    if done.len() < all.len() - 1 {
                        assert(!(all[done.len() as int] is Eof));
                    }
                }
                assert(events_view(res@) =~= all);
            }
            break;
        }
        proof {
            assert(events_view(res@) + reader_pending(reader) =~= all);
            if reader_pending(reader).len() == 0 {
                assert(events_view(res@) =~= all);
                assert(all.last() == before[0]);
            }
        }
    }
    res
}

impl SchedulePlugin {
    /// Reads a schedule document, given as its bytes, into the world: the
    /// bytes are read as XML with quick_xml, and the events are loaded as
    /// `load` does. When the loader refuses an event (an attribute it must
    /// read, or line-attribute text, could not be read), returns `false`
    /// and leaves the world as it was.
    pub fn load_document(world: &mut World, text: &[u8]) -> (ok: bool)
        ensures
            ok == events_accepted(quick_xml_events(text@)),
            ok ==> final(world)@ == load_spec(initial_state(), old(world)@, quick_xml_events(text@)).1,
            !ok ==> final(world)@ == old(world)@,
    {
        let events = read_xml_events(text);
        if !Self::accepts(&events) {
            return false;
        }
        Self::load(world, &events);
        true
    }
}

} // verus!
