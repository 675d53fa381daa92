use vstd::prelude::*;
use crate::model::opt_view;
use crate::times::{hms_format, naive_time_parse, parse_time_of_day, time_of_day_of};

verus! {

/// An attribute of an XML element. `value` is `None` when the attribute's
/// value could not be unescaped.
#[derive(Debug, Clone)]
pub struct XmlAttribute {
    pub key: String,
    pub value: Option<String>,
}

/// An XML element as it opens: its name and its attributes, in order.
#[derive(Debug, Clone)]
pub struct XmlElement {
    pub name: String,
    pub attributes: Vec<XmlAttribute>,
}

/// One event of an XML reader.
#[derive(Debug, Clone)]
pub enum XmlEvent {
    /// An opening tag.
    Start(XmlElement),
    /// A self-closing tag.
    Empty(XmlElement),
    /// A closing tag, with the element's name.
    End(String),
    /// Text between tags; `None` when it could not be decoded.
    Text(Option<String>),
    /// The end of the input.
    Eof,
    /// A reading error.
    Error,
    /// Any other event (comments, declarations, CDATA, ...).
    Other,
}

/// What an attribute holds, as plain values.
pub struct AttributeView {
    pub key: Seq<char>,
    pub value: Option<Seq<char>>,
}

impl View for XmlAttribute {
    type V = AttributeView;

    open spec fn view(&self) -> AttributeView {
        AttributeView { key: self.key@, value: opt_view(self.value) }
    }
}

/// The attributes, as plain values.
pub open spec fn attrs_view(a: Seq<XmlAttribute>) -> Seq<AttributeView> {
    a.map_values(|x: XmlAttribute| x@)
}

/// What an opening or self-closing tag holds, as plain values.
pub struct ElementView {
    pub name: Seq<char>,
    pub attributes: Seq<AttributeView>,
}

impl View for XmlElement {
    type V = ElementView;

    open spec fn view(&self) -> ElementView {
        ElementView { name: self.name@, attributes: attrs_view(self.attributes@) }
    }
}

/// What an XML event holds, as plain values.
pub enum XmlEventView {
    Start(ElementView),
    Empty(ElementView),
    End(Seq<char>),
    Text(Option<Seq<char>>),
    Eof,
    Error,
    Other,
}

impl View for XmlEvent {
    type V = XmlEventView;

    open spec fn view(&self) -> XmlEventView {
        match self {
            XmlEvent::Start(e) => XmlEventView::Start(e@),
            XmlEvent::Empty(e) => XmlEventView::Empty(e@),
            XmlEvent::End(n) => XmlEventView::End(n@),
            XmlEvent::Text(t) => XmlEventView::Text(opt_view(*t)),
            XmlEvent::Eof => XmlEventView::Eof,
            XmlEvent::Error => XmlEventView::Error,
            XmlEvent::Other => XmlEventView::Other,
        }
    }
}

/// The events, as plain values.
pub open spec fn events_view(s: Seq<XmlEvent>) -> Seq<XmlEventView> {
    s.map_values(|e: XmlEvent| e@)
}

/// Whether two strings are equal.
pub fn str_eq(a: &str, b: &str) -> (res: bool)
    ensures
        res == (a@ == b@),
{
    let n = a.unicode_len();
    if n != b.unicode_len() {
        return false;
    }
    let mut i: usize = 0;
    while i < n
        invariant
            n == a@.len(),
            n == b@.len(),
            i <= n,
            forall|j: int| 0 <= j < i ==> a@[j] == b@[j],
        decreases n - i,
    {
        if a.get_char(i) != b.get_char(i) {
            return false;
        }
        i = i + 1;
    }
    assert(a@ =~= b@);
    true
}

/// The value of the last attribute named `key` whose value could be read.
pub open spec fn last_value(attrs: Seq<AttributeView>, key: Seq<char>) -> Option<Seq<char>>
    decreases attrs.len(),
{
    if attrs.len() == 0 {
        None
    } else if attrs.last().key == key && attrs.last().value is Some {
        attrs.last().value
    } else {
        last_value(attrs.drop_last(), key)
    }
}

/// Whether some attribute named `key` has a value that could not be read.
pub open spec fn has_unreadable(attrs: Seq<AttributeView>, key: Seq<char>) -> bool {
    exists|i: int| 0 <= i < attrs.len() && (#[trigger] attrs[i]).key == key && attrs[i].value is None
}

/// The time of day (in half-seconds) written in the last attribute named `key`
/// whose value could be read and parses as `HH:MM:SS`.
pub open spec fn last_time(attrs: Seq<AttributeView>, key: Seq<char>) -> Option<u32>
    decreases attrs.len(),
{
    if attrs.len() == 0 {
        None
    } else {
        let a = attrs.last();
        if a.key == key && a.value is Some
            && naive_time_parse(a.value.unwrap(), hms_format()) is Some {
            time_of_day_of(naive_time_parse(a.value.unwrap(), hms_format()))
        } else {
            last_time(attrs.drop_last(), key)
        }
    }
}

/// The value of the last attribute named `key` whose value could be read.
pub fn find_last_value(attrs: &Vec<XmlAttribute>, key: &str) -> (res: Option<String>)
    ensures
        opt_view(res) == last_value(attrs_view(attrs@), key@),
{
    let ghost av = attrs_view(attrs@);
    let mut res: Option<String> = None;
    let mut i: usize = 0;
    while i < attrs.len()
        invariant
            i <= attrs@.len(),
            av == attrs_view(attrs@),
            opt_view(res) == last_value(av.take(i as int), key@),
        decreases attrs@.len() - i,
    {
        assert(av.take(i + 1).drop_last() =~= av.take(i as int));
        assert(av.take(i + 1).last() == attrs@[i as int]@);
        let a = &attrs[i];
        if str_eq(a.key.as_str(), key) {
            match &a.value {
                Some(v) => {
                    res = Some(v.clone());
                },
                None => {},
            }
        }
        i = i + 1;
    }
    assert(av.take(attrs@.len() as int) =~= av);
    res
}

/// Whether some attribute named `key` has a value that could not be read.
pub fn find_unreadable(attrs: &Vec<XmlAttribute>, key: &str) -> (res: bool)
    ensures
        res == has_unreadable(attrs_view(attrs@), key@),
{
    let ghost av = attrs_view(attrs@);
    let mut i: usize = 0;
    while i < attrs.len()
        invariant
            i <= attrs@.len(),
            av == attrs_view(attrs@),
            forall|j: int| 0 <= j < i ==> !((#[trigger] av[j]).key == key@ && av[j].value is None),
        decreases attrs@.len() - i,
    {
        let a = &attrs[i];
        assert(av[i as int] == a@);
        if a.value.is_none() && str_eq(a.key.as_str(), key) {
            return true;
        }
        i = i + 1;
    }
    false
}

/// The time of day written in the last attribute named `key` whose value
/// could be read and parses as `HH:MM:SS`.
pub fn find_last_time(attrs: &Vec<XmlAttribute>, key: &str) -> (res: Option<u32>)
    ensures
        res == last_time(attrs_view(attrs@), key@),
        res matches Some(t) ==> t < 172800,
{
    let ghost av = attrs_view(attrs@);
    let mut res: Option<u32> = None;
    let mut i: usize = 0;
    while i < attrs.len()
        invariant
            i <= attrs@.len(),
            av == attrs_view(attrs@),
            res == last_time(av.take(i as int), key@),
            res matches Some(t) ==> t < 172800,
        decreases attrs@.len() - i,
    {
        assert(av.take(i + 1).drop_last() =~= av.take(i as int));
        assert(av.take(i + 1).last() == attrs@[i as int]@);
        let a = &attrs[i];
        if str_eq(a.key.as_str(), key) {
            match &a.value {
                Some(v) => {
                    let t = parse_time_of_day(v.as_str());
                    if t.is_some() {
                        res = t;
                    }
                },
                None => {},
            }
        }
        i = i + 1;
    }
    assert(av.take(attrs@.len() as int) =~= av);
    res
}

} // verus!
