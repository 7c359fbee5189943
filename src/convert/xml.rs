//! Events to XML elements.
use vstd::prelude::*;
use crate::model::{Token, Value, ValuePosition};

verus! {

/// The textual form of a scalar.
pub open spec fn scalar_text(v: Value) -> Seq<char> {
    match v {
        Value::Boolean(b) => if b { "true"@ } else { "false"@ },
        Value::Number(s) => s@,
        Value::String(s) => s@,
        _ => Seq::<char>::empty(),
    }
}

/// The XML for the event `(path, v)`: an element named after its key when
/// the parent is an object, `value` when it is an array, and nothing around
/// a scalar at the root. `null` is a self-closing element (nothing at the
/// root); containers inside arrays or at the root are `list` and `object`.
/// Nothing is escaped.
pub open spec fn xml_output(path: Seq<ValuePosition>, v: Value) -> Option<Seq<char>> {
    let top = if path.len() == 0 { None } else { Some(path.last()) };
    match v {
        Value::Null => match top {
            Some(ValuePosition::Index(_)) => Some("<value />"@),
            Some(ValuePosition::Key(k)) => Some("<"@ + k@ + " />"@),
            None => None,
        },
        Value::Boolean(_) | Value::Number(_) | Value::String(_) => match top {
            Some(ValuePosition::Index(_)) => Some("<value>"@ + scalar_text(v) + "</value>"@),
            Some(ValuePosition::Key(k)) => Some("<"@ + k@ + ">"@ + scalar_text(v) + "</"@ + k@ + ">"@),
            None => Some(scalar_text(v)),
        },
        Value::StartArray => match top {
            Some(ValuePosition::Key(k)) => Some("<"@ + k@ + ">"@),
            _ => Some("<list>"@),
        },
        Value::StartObject => match top {
            Some(ValuePosition::Key(k)) => Some("<"@ + k@ + ">"@),
            _ => Some("<object>"@),
        },
        Value::EndArray => match top {
            Some(ValuePosition::Key(k)) => Some("</"@ + k@ + ">"@),
            _ => Some("</list>"@),
        },
        Value::EndObject => match top {
            Some(ValuePosition::Key(k)) => Some("</"@ + k@ + ">"@),
            _ => Some("</object>"@),
        },
    }
}

/// Writes events as XML.
pub struct XmlConverter {}

fn open_tag(k: &String) -> (r: String)
    ensures
        r@ == "<"@ + k@ + ">"@,
{
    let mut s = String::from_str("<");
    s.append(k.as_str());
    s.append(">");
    s
}

fn close_tag(k: &String) -> (r: String)
    ensures
        r@ == "</"@ + k@ + ">"@,
{
    let mut s = String::from_str("</");
    s.append(k.as_str());
    s.append(">");
    s
}

impl XmlConverter {
    pub fn new() -> (r: XmlConverter) {
        XmlConverter {}
    }

    /// The XML for one event, if any.
    pub fn stream_as_xml(token: &Token) -> (r: Option<String>)
        ensures
            match xml_output(token.path@, token.value) {
                Some(t) => r matches Some(s) && s@ == t,
                None => r is None,
            },
    {
        let top = token.path.top_most();
        match &token.value {
            Value::Null => match top {
                Some(ValuePosition::Index(_)) => Some(String::from_str("<value />")),
                Some(ValuePosition::Key(k)) => {
                    let mut s = String::from_str("<");
                    s.append(k.as_str());
                    s.append(" />");
                    Some(s)
                },
                None => None,
            },
            Value::Boolean(_) | Value::Number(_) | Value::String(_) => {
                let text = match &token.value {
                    Value::Boolean(b) => if *b { String::from_str("true") } else { String::from_str("false") },
                    Value::Number(v) => v.clone(),
                    Value::String(v) => v.clone(),
                    _ => String::new(),
                };
                match top {
                    Some(ValuePosition::Index(_)) => {
                        let mut s = String::from_str("<value>");
                        s.append(text.as_str());
                        s.append("</value>");
                        Some(s)
                    },
                    Some(ValuePosition::Key(k)) => {
                        let mut s = open_tag(&k);
                        s.append(text.as_str());
                        let c = close_tag(&k);
                        s.append(c.as_str());
                        Some(s)
                    },
                    None => Some(text),
                }
            },
            Value::StartArray => match top {
                Some(ValuePosition::Key(k)) => Some(open_tag(&k)),
                _ => Some(String::from_str("<list>")),
            },
            Value::StartObject => match top {
                Some(ValuePosition::Key(k)) => Some(open_tag(&k)),
                _ => Some(String::from_str("<object>")),
            },
            Value::EndArray => match top {
                Some(ValuePosition::Key(k)) => Some(close_tag(&k)),
                _ => Some(String::from_str("</list>")),
            },
            Value::EndObject => match top {
                Some(ValuePosition::Key(k)) => Some(close_tag(&k)),
                _ => Some(String::from_str("</object>")),
            },
        }
    }
}

} // verus!
