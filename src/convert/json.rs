//! Events back to JSON text.
use vstd::prelude::*;
use crate::model::{Token, Value, ValuePath, ValuePosition, path_text};

verus! {

/// The JSON text of a value on its own. Strings are written between quotes as
/// they came, escapes kept, so nothing is escaped again.
pub open spec fn json_text(v: Value) -> Seq<char> {
    match v {
        Value::Null => "null"@,
        Value::Boolean(b) => if b { "true"@ } else { "false"@ },
        Value::Number(s) => s@,
        Value::String(s) => "\""@ + s@ + "\""@,
        Value::StartArray => "["@,
        Value::StartObject => "{"@,
        Value::EndArray => "]"@,
        Value::EndObject => "}"@,
    }
}

pub open spec fn is_closing(v: Value) -> bool {
    v is EndArray || v is EndObject
}

/// The text for the event `(path, v)` and the new set of objects that have
/// emitted a member, given the set `known` (by path text). A closing event
/// is written bare (and an object's closing forgets the object, the root included); an array
/// element after the first is preceded by `,`; an object member is written
/// `"key": value`, preceded by `,` unless it is its object's first.
pub open spec fn json_output(known: Set<Seq<char>>, path: Seq<ValuePosition>, v: Value) -> (Seq<char>, Set<Seq<char>>) {
    if is_closing(v) {
        (json_text(v), if v is EndObject { known.remove(path_text(path)) } else { known })
    } else if path.len() == 0 {
        (json_text(v), known)
    } else {
        match path.last() {
            ValuePosition::Index(i) => ((if i > 0 { ","@ } else { Seq::<char>::empty() }) + json_text(v), known),
            ValuePosition::Key(k) => {
                let parent = path_text(path.drop_last());
                (
                    (if known.contains(parent) { ","@ } else { Seq::<char>::empty() }) + "\""@ + k@ + "\": "@
                        + json_text(v),
                    known.insert(parent),
                )
            },
        }
    }
}

/// A set of texts, kept as a vector without duplicates.
struct TextSet {
    items: Vec<String>,
}

impl TextSet {
    spec fn view(&self) -> Set<Seq<char>> {
        Set::new(|s: Seq<char>| exists|i: int| 0 <= i < self.items@.len() && self.items@[i]@ == s)
    }

    fn new() -> (r: TextSet)
        ensures
            r.view() == Set::<Seq<char>>::empty(),
    {
        let r = TextSet { items: Vec::new() };
        assert(r.view() =~= Set::<Seq<char>>::empty());
        r
    }

    fn contains(&self, s: &String) -> (r: bool)
        ensures
            r == self.view().contains(s@),
    {
        let mut i: usize = 0;
        while i < self.items.len()
            invariant
                i <= self.items@.len(),
                forall|j: int| 0 <= j < i ==> self.items@[j]@ != s@,
            decreases self.items@.len() - i,
        {
            if self.items[i] == *s {
                return true;
            }
            i = i + 1;
        }
        false
    }

    fn insert(&mut self, s: String)
        ensures
            final(self).view() == old(self).view().insert(s@),
    {
        if !self.contains(&s) {
            let ghost before = self.items@;
            self.items.push(s);
            assert forall|x: Seq<char>| self.view().contains(x) <==> old(self).view().insert(s@).contains(x) by {
                if old(self).view().contains(x) {
                    let i = choose|i: int| 0 <= i < before.len() && before[i]@ == x;
                    assert(self.items@[i]@ == x);
                }
                if x == s@ {
                    assert(self.items@[before.len() as int]@ == x);
                }
            }
            assert(self.view() =~= old(self).view().insert(s@));
        } else {
            assert(self.view() =~= old(self).view().insert(s@));
        }
    }

    fn remove(&mut self, s: &String)
        ensures
            final(self).view() == old(self).view().remove(s@),
    {
        let mut kept: Vec<String> = Vec::new();
        let mut i: usize = 0;
        while i < self.items.len()
            invariant
                i <= self.items@.len(),
                forall|j: int| 0 <= j < kept@.len() ==> #[trigger] kept@[j]@ != s@
                    && exists|m: int| 0 <= m < i && self.items@[m]@ == kept@[j]@,
                forall|m: int| 0 <= m < i && #[trigger] self.items@[m]@ != s@ ==>
                    exists|j: int| 0 <= j < kept@.len() && kept@[j]@ == self.items@[m]@,
            decreases self.items@.len() - i,
        {
            let ghost before = kept@;
            if self.items[i] != *s {
                kept.push(self.items[i].clone());
                assert(kept@[before.len() as int]@ == self.items@[i as int]@);
            }
            assert forall|m: int| 0 <= m < i + 1 && #[trigger] self.items@[m]@ != s@ implies exists|j: int|
                0 <= j < kept@.len() && kept@[j]@ == self.items@[m]@ by {
                if m < i {
                    let j = choose|j: int| 0 <= j < before.len() && before[j]@ == self.items@[m]@;
                    assert(kept@[j] == before[j]);
                } else {
                    assert(kept@[before.len() as int]@ == self.items@[m]@);
                }
            }
            assert forall|j: int| 0 <= j < kept@.len() implies #[trigger] kept@[j]@ != s@
                && exists|m: int| 0 <= m < i + 1 && self.items@[m]@ == kept@[j]@ by {
                if j < before.len() {
                    assert(kept@[j] == before[j]);
                    let m = choose|m: int| 0 <= m < i && self.items@[m]@ == before[j]@;
                } else {
                    assert(self.items@[i as int]@ == kept@[j]@);
                }
            }
            i = i + 1;
        }
        let ghost old_items = self.items@;
        self.items = kept;
        assert forall|x: Seq<char>| self.view().contains(x) <==> old(self).view().remove(s@).contains(x) by {
            if self.view().contains(x) {
                let j = choose|j: int| 0 <= j < self.items@.len() && self.items@[j]@ == x;
                assert(self.items@[j]@ != s@);
            }
            if old(self).view().remove(s@).contains(x) {
                let m = choose|m: int| 0 <= m < old_items.len() && old_items[m]@ == x;
                assert(old_items[m]@ != s@);
            }
        }
        assert(self.view() =~= old(self).view().remove(s@));
    }
}

/// Writes events as JSON.
pub struct JsonConverter {
    known_entities: TextSet,
}

impl JsonConverter {
    /// The paths (as text) of the objects that have emitted a member.
    pub closed spec fn known(&self) -> Set<Seq<char>> {
        self.known_entities.view()
    }

    pub fn new() -> (r: JsonConverter)
        ensures
            r.known() == Set::<Seq<char>>::empty(),
    {
        JsonConverter { known_entities: TextSet::new() }
    }

    /// The text of a value on its own.
    pub fn stringify_token_value(token_value: &Value) -> (r: String)
        ensures
            r@ == json_text(*token_value),
    {
        match token_value {
            Value::Null => String::from_str("null"),
            Value::Boolean(b) => if *b { String::from_str("true") } else { String::from_str("false") },
            Value::Number(value) => value.clone(),
            Value::String(value) => {
                let mut s = String::from_str("\"");
                s.append(value.as_str());
                s.append("\"");
                s
            },
            Value::StartArray => String::from_str("["),
            Value::StartObject => String::from_str("{"),
            Value::EndArray => String::from_str("]"),
            Value::EndObject => String::from_str("}"),
        }
    }

    /// The JSON text for one event.
    pub fn forward_json(&mut self, token: &Token) -> (r: String)
        ensures
            (r@, final(self).known()) == json_output(old(self).known(), token.path@, token.value),
    {
        let text = Self::stringify_token_value(&token.value);
        let closing = match token.value {
            Value::EndArray | Value::EndObject => true,
            _ => false,
        };
        if closing {
            if let Value::EndObject = token.value {
                let own = token.path.get_path_string();
                self.known_entities.remove(&own);
            }
            return text;
        }
        match token.path.top_most() {
            None => text,
            Some(ValuePosition::Index(index)) => {
                let mut out = String::new();
                if index > 0 {
                    out.append(",");
                }
                out.append(text.as_str());
                proof {
                    assert(out@ =~= (if index > 0 { ","@ } else { Seq::<char>::empty() }) + json_text(token.value));
                }
                out
            },
            Some(ValuePosition::Key(key)) => {
                let parent = match token.path.parent() {
                    Some(p) => p,
                    None => ValuePath::new(),
                };
                let parent_text = parent.get_path_string();
                let mut out = String::new();
                if self.known_entities.contains(&parent_text) {
                    out.append(",");
                }
                let ghost prefix = out@;
                out.append("\"");
                out.append(key.as_str());
                out.append("\": ");
                out.append(text.as_str());
                self.known_entities.insert(parent_text);
                proof {
                    assert(out@ =~= prefix + "\""@ + key@ + "\": "@ + json_text(token.value));
                }
                out
            },
        }
    }
}

} // verus!
