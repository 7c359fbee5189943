//! The query drivers: the URL of an entity-set query, and the walk over the
//! top level of a response that hands its payload to the event producer.
use vstd::prelude::*;
use crate::decode::{DecodeError, JsonToken};
use crate::stream::{Error, error_text};
use crate::entity_stream::{EntityStreamer, RootEntityType, StreamStep, produce, premature_end_message, index_overflow_message};
use crate::model::{EntitySetQuery, MyError, Token, Value, ValuePosition};

verus! {

/// The query options of an entity-set query, in the fixed order `$filter`,
/// `$select`, `$orderby`, joined by `&`.
pub open spec fn query_options(q: EntitySetQuery) -> Seq<char> {
    let f = match q.filters {
        Some(v) => "$filter="@ + v@,
        None => Seq::<char>::empty(),
    };
    let s = match q.select {
        Some(v) => (if q.filters is Some { "&"@ } else { Seq::<char>::empty() }) + "$select="@ + v@,
        None => Seq::<char>::empty(),
    };
    let o = match q.order_by {
        Some(v) => (if q.filters is Some || q.select is Some { "&"@ } else { Seq::<char>::empty() })
            + "$orderby="@ + v@,
        None => Seq::<char>::empty(),
    };
    f + s + o
}

/// The URL of an entity-set query: the entity set's URL, then `?` and the
/// options if there are any. Values are taken as they are, already encoded.
pub open spec fn query_url(q: EntitySetQuery) -> Seq<char> {
    if q.spec_has_options() {
        q.entityset_url@ + "?"@ + query_options(q)
    } else {
        q.entityset_url@
    }
}

/// Loads an entity set, page after page.
pub struct EntitySetIterator {}

impl EntitySetIterator {
    pub fn new() -> (r: EntitySetIterator) {
        EntitySetIterator {}
    }

    /// The URL of the first page of the query.
    pub fn build_full_url(&self, query: &EntitySetQuery) -> (r: String)
        ensures
            r@ == query_url(*query),
    {
        let mut full_url = query.entityset_url.clone();
        if !query.has_options() {
            return full_url;
        }
        let mut ampersand_necessary = false;
        full_url.append("?");
        let ghost base = full_url@;
        if let Some(filter) = &query.filters {
            full_url.append("$filter=");
            full_url.append(filter.as_str());
            ampersand_necessary = true;
        }
        let ghost after_filter = full_url@;
        if let Some(select) = &query.select {
            if ampersand_necessary {
                full_url.append("&");
            }
            full_url.append("$select=");
            full_url.append(select.as_str());
            ampersand_necessary = true;
        }
        let ghost after_select = full_url@;
        if let Some(order_by) = &query.order_by {
            if ampersand_necessary {
                full_url.append("&");
            }
            full_url.append("$orderby=");
            full_url.append(order_by.as_str());
        }
        proof {
            let q = *query;
            let f = match q.filters { Some(v) => "$filter="@ + v@, None => Seq::<char>::empty() };
            let s = match q.select {
                Some(v) => (if q.filters is Some { "&"@ } else { Seq::<char>::empty() }) + "$select="@ + v@,
                None => Seq::<char>::empty(),
            };
            let o = match q.order_by {
                Some(v) => (if q.filters is Some || q.select is Some { "&"@ } else { Seq::<char>::empty() })
                    + "$orderby="@ + v@,
                None => Seq::<char>::empty(),
            };
            assert(after_filter =~= base + f);
            assert(after_select =~= base + f + s);
            assert(full_url@ =~= base + f + s + o);
            assert(full_url@ =~= q.entityset_url@ + "?"@ + (f + s + o));
        }
        full_url
    }
}

/// Loads a single entity.
pub struct EntityIndividualLoader {}

impl EntityIndividualLoader {
    pub fn new() -> (r: EntityIndividualLoader) {
        EntityIndividualLoader {}
    }
}

/// Calls a function whose result is a collection.
pub struct FunctionCaller {}

impl FunctionCaller {
    pub fn new() -> (r: FunctionCaller) {
        FunctionCaller {}
    }
}

/// The shape of a response.
#[derive(Debug, Clone, Copy, PartialEq, Eq, Structural)]
pub enum ResponseKind {
    /// A page of an entity set: `value` holds the entities, and
    /// `@odata.nextLink` the URL of the next page.
    EntitySet,
    /// A function result: `value` holds the result; there are no further pages.
    Function,
    /// A single entity: the object itself.
    Entity,
}

/// Where the walk over a response stands.
#[derive(Debug, Clone, Copy, PartialEq, Eq, Structural)]
pub enum Phase {
    /// Before the opening `{` of the response.
    Open,
    /// Between the members of the response object.
    TopLevel,
    /// After the key `@odata.nextLink`.
    NextLink,
    /// After the key `value`.
    ValueArray,
    /// Inside the payload, which the event producer walks.
    Content,
    /// Inside the value of another member, with this many containers open.
    Skip(usize),
    /// The response is over.
    Closed,
}

/// What the owner of a collector does after one token.
#[derive(Debug)]
pub enum CollectStep {
    /// Send this event, then go on with the next token.
    Emit(Token),
    /// Nothing to send; go on with the next token.
    Continue,
    /// The response is over; fetch the next page from this URL, if any.
    Finished(Option<String>),
}

/// The outcome of one token for the collector.
pub enum Outcome {
    Event(Seq<ValuePosition>, Value),
    Nothing,
    Finished,
    Failed(Seq<char>),
}

/// The state of a collector after one token, and its outcome.
pub struct Collected {
    pub phase: Phase,
    pub next: Option<String>,
    pub path: Seq<ValuePosition>,
    pub index: Option<usize>,
    pub outcome: Outcome,
}

pub open spec fn top_level_message() -> Seq<char> {
    "Invalid top level JSON structure of response"@
}

pub open spec fn next_link_key() -> Seq<char> {
    "@odata.nextLink"@
}

pub open spec fn value_key() -> Seq<char> {
    "value"@
}

pub open spec fn is_open_token(t: JsonToken) -> bool {
    t is StartObject || t is StartArray
}

pub open spec fn is_close_token(t: JsonToken) -> bool {
    t is EndObject || t is EndArray
}

/// A step that moves to `phase` with outcome `outcome`, keeping the rest.
pub open spec fn kept(
    next: Option<String>,
    path: Seq<ValuePosition>,
    index: Option<usize>,
    phase: Phase,
    outcome: Outcome,
) -> Collected {
    Collected { phase, next, path, index, outcome }
}

/// One step of the walk over a response of kind `kind`. The response must
/// open with `{`. Between its members: `@odata.nextLink` (entity sets only)
/// gives the URL of the next page, which must be a string; `value` must hold
/// an array, whose elements go to the event producer; any other member is
/// skipped whole; `}` or the end of the input ends the response. A single
/// entity goes to the producer right after its `{`.
pub open spec fn collect_spec(
    kind: ResponseKind,
    phase: Phase,
    next: Option<String>,
    path: Seq<ValuePosition>,
    index: Option<usize>,
    token: Option<JsonToken>,
) -> Collected {
    match phase {
        Phase::Open => match token {
            Some(JsonToken::StartObject) => kept(next, path, index, 
                if kind == ResponseKind::Entity { Phase::Content } else { Phase::TopLevel },
                Outcome::Nothing,
            ),
            _ => kept(next, path, index, phase, Outcome::Failed(top_level_message())),
        },
        Phase::TopLevel => match token {
            None => kept(next, path, index, Phase::Closed, Outcome::Finished),
            Some(JsonToken::EndObject) => kept(next, path, index, Phase::Closed, Outcome::Finished),
            Some(JsonToken::JsKey(k)) => kept(next, path, index, 
                if kind == ResponseKind::EntitySet && k@ == next_link_key() {
                    Phase::NextLink
                } else if k@ == value_key() {
                    Phase::ValueArray
                } else {
                    Phase::Skip(0)
                },
                Outcome::Nothing,
            ),
            Some(_) => kept(next, path, index, phase, Outcome::Failed(top_level_message())),
        },
        Phase::NextLink => match token {
            Some(JsonToken::JsString(s)) => Collected {
                phase: Phase::TopLevel,
                next: Some(s),
                path,
                index,
                outcome: Outcome::Nothing,
            },
            Some(_) => kept(next, path, index, phase, Outcome::Failed("Expected a string value for key '@odata.nextLink'"@)),
            None => kept(next, path, index, phase, Outcome::Failed("Expected a value after key '@odata.nextLink'"@)),
        },
        Phase::ValueArray => match token {
            Some(JsonToken::StartArray) => kept(next, path, index, Phase::Content, Outcome::Nothing),
            _ => kept(next, path, index, phase, Outcome::Failed("Expected an array for key 'value'"@)),
        },
        Phase::Content => match token {
            None => kept(next, path, index, phase, Outcome::Failed(premature_end_message(path))),
            Some(t) => {
                let p = produce(path, index, t);
                if p.overflow {
                    kept(next, path, index, phase, Outcome::Failed(index_overflow_message()))
                } else if p.done {
                    if kind == ResponseKind::Entity {
                        kept(next, path, index, Phase::Closed, Outcome::Finished)
                    } else {
                        kept(next, path, index, Phase::TopLevel, Outcome::Nothing)
                    }
                } else {
                    Collected {
                        phase,
                        next,
                        path: p.path,
                        index: p.index,
                        outcome: match p.event {
                            Some((ep, ev)) => Outcome::Event(ep, ev),
                            None => Outcome::Nothing,
                        },
                    }
                }
            },
        },
        Phase::Skip(d) => match token {
            None => kept(next, path, index, Phase::Closed, Outcome::Finished),
            Some(t) => if is_open_token(t) {
                if d == usize::MAX {
                    kept(next, path, index, phase, Outcome::Failed("Nesting too deep"@))
                } else {
                    kept(next, path, index, Phase::Skip((d + 1) as usize), Outcome::Nothing)
                }
            } else if is_close_token(t) {
                if d == 0 {
                    kept(next, path, index, phase, Outcome::Failed(top_level_message()))
                } else if d == 1 {
                    kept(next, path, index, Phase::TopLevel, Outcome::Nothing)
                } else {
                    kept(next, path, index, Phase::Skip((d - 1) as usize), Outcome::Nothing)
                }
            } else if t is JsKey || d > 0 {
                kept(next, path, index, phase, Outcome::Nothing)
            } else {
                kept(next, path, index, Phase::TopLevel, Outcome::Nothing)
            },
        },
        Phase::Closed => kept(next, path, index, phase, Outcome::Finished),
    }
}

/// Whether the result `r` and the new state are those that `c` describes.
pub open spec fn collect_matches(
    c: Collected,
    r: Result<CollectStep, MyError>,
    phase: Phase,
    next: Option<String>,
    path: Seq<ValuePosition>,
    index: Option<usize>,
) -> bool {
    match c.outcome {
        Outcome::Failed(m) => r matches Err(e) && e.message@ == m,
        _ => {
            &&& phase == c.phase
            &&& next == c.next
            &&& path == c.path
            &&& index == c.index
            &&& match c.outcome {
                Outcome::Event(ep, ev) => r matches Ok(CollectStep::Emit(t)) && t.path@ == ep && t.value == ev,
                Outcome::Nothing => r matches Ok(CollectStep::Continue),
                Outcome::Finished => r matches Ok(CollectStep::Finished(n)) && n == c.next,
                _ => false,
            }
        },
    }
}

/// Whether `s` holds the text of `lit`.
fn text_is(s: &String, lit: &str) -> (r: bool)
    ensures
        r == (s@ == lit@),
{
    let t = String::from_str(lit);
    *s == t
}

/// Walks the top level of responses and feeds their payload to one event
/// producer, which lives across the pages of an entity set.
pub struct ResponseCollector {
    kind: ResponseKind,
    phase: Phase,
    next: Option<String>,
    stream: EntityStreamer,
}

impl ResponseCollector {
    pub closed spec fn spec_kind(&self) -> ResponseKind {
        self.kind
    }

    pub closed spec fn spec_phase(&self) -> Phase {
        self.phase
    }

    pub closed spec fn spec_next(&self) -> Option<String> {
        self.next
    }

    /// The path of the producer.
    pub closed spec fn spec_path(&self) -> Seq<ValuePosition> {
        self.stream.spec_path()
    }

    /// The active index of the producer.
    pub closed spec fn spec_index(&self) -> Option<usize> {
        self.stream.spec_index()
    }

    /// The producer walks the root that the kind of response calls for.
    pub closed spec fn wf(&self) -> bool {
        self.stream.root() == Self::root_of(self.kind)
    }

    /// The root the producer walks: an array of entities, or one entity.
    pub open spec fn root_of(kind: ResponseKind) -> RootEntityType {
        if kind == ResponseKind::Entity { RootEntityType::Object } else { RootEntityType::Array }
    }

    /// A collector for responses of `kind`, before its opening event.
    pub fn new(kind: ResponseKind) -> (r: ResponseCollector)
        ensures
            r.wf(),
            r.spec_kind() == kind,
            r.spec_phase() == Phase::Open,
            r.spec_next() is None,
            r.spec_path() == Seq::<ValuePosition>::empty(),
            r.spec_index() is None,
    {
        let root = if kind == ResponseKind::Entity { RootEntityType::Object } else { RootEntityType::Array };
        ResponseCollector { kind, phase: Phase::Open, next: None, stream: EntityStreamer::new(root) }
    }

    /// The opening framing event of the whole stream of events.
    pub fn begin(&mut self) -> (r: Option<Token>)
        requires
            old(self).wf(),
        ensures
            final(self).wf(),
            final(self).spec_kind() == old(self).spec_kind(),
            final(self).spec_phase() == old(self).spec_phase(),
            final(self).spec_next() == old(self).spec_next(),
            final(self).spec_path() == old(self).spec_path(),
            old(self).spec_kind() == ResponseKind::Entity ==> (r matches Some(t) && t.path@.len() == 0
                && t.value == Value::StartObject && final(self).spec_index() == old(self).spec_index()),
            old(self).spec_kind() != ResponseKind::Entity ==> (r matches Some(t) && t.path@.len() == 0
                && t.value == Value::StartArray && final(self).spec_index() == Some(0usize)),
    {
        self.stream.begin()
    }

    /// The closing framing event of the whole stream of events.
    pub fn end(&self) -> (r: Option<Token>)
        requires
            self.wf(),
        ensures
            self.spec_kind() == ResponseKind::Entity ==> (r matches Some(t) && t.path@.len() == 0
                && t.value == Value::EndObject),
            self.spec_kind() != ResponseKind::Entity ==> (r matches Some(t) && t.path@.len() == 0
                && t.value == Value::EndArray),
    {
        self.stream.end()
    }

    /// Prepares for the next response (the next page of an entity set).
    pub fn start_response(&mut self)
        requires
            old(self).wf(),
        ensures
            final(self).wf(),
            final(self).spec_kind() == old(self).spec_kind(),
            final(self).spec_phase() == Phase::Open,
            final(self).spec_next() is None,
            final(self).spec_path() == old(self).spec_path(),
            final(self).spec_index() == old(self).spec_index(),
    {
        self.phase = Phase::Open;
        self.next = None;
    }

    /// The error to report for a failure of the token stream. An input that
    /// ends inside the payload is a content error at the producer's last
    /// path; any other failure is reported as the stream error it is.
    pub fn stream_failed(&self, e: &Error) -> (r: MyError)
        ensures
            (self.spec_phase() == Phase::Content && *e == Error::DecodeError(DecodeError::UnexpectedEndOfStream))
                ==> r.message@ == premature_end_message(self.spec_path()),
            !(self.spec_phase() == Phase::Content && *e == Error::DecodeError(DecodeError::UnexpectedEndOfStream))
                ==> r.message@ == error_text(*e),
    {
        if let Phase::Content = self.phase {
            if let Error::DecodeError(DecodeError::UnexpectedEndOfStream) = e {
                return self.stream.premature_end();
            }
        }
        MyError::from_stream_error(e)
    }

    /// Handles the current token of the response; `None` is the end of the
    /// input.
    pub fn collect(&mut self, token: &Option<JsonToken>) -> (r: Result<CollectStep, MyError>)
        requires
            old(self).wf(),
        ensures
            final(self).wf(),
            final(self).spec_kind() == old(self).spec_kind(),
            collect_matches(
                collect_spec(old(self).spec_kind(), old(self).spec_phase(), old(self).spec_next(),
                    old(self).spec_path(), old(self).spec_index(), *token),
                r, final(self).spec_phase(), final(self).spec_next(), final(self).spec_path(),
                final(self).spec_index(),
            ),
    {
        match self.phase {
            Phase::Open => match token {
                Some(JsonToken::StartObject) => {
                    self.phase = if self.kind == ResponseKind::Entity { Phase::Content } else { Phase::TopLevel };
                    Ok(CollectStep::Continue)
                },
                _ => Err(MyError::new(String::from_str("Invalid top level JSON structure of response"))),
            },
            Phase::TopLevel => match token {
                None => {
                    self.phase = Phase::Closed;
                    Ok(CollectStep::Finished(self.next.clone()))
                },
                Some(JsonToken::EndObject) => {
                    self.phase = Phase::Closed;
                    Ok(CollectStep::Finished(self.next.clone()))
                },
                Some(JsonToken::JsKey(k)) => {
                    if self.kind == ResponseKind::EntitySet && text_is(k, "@odata.nextLink") {
                        self.phase = Phase::NextLink;
                    } else if text_is(k, "value") {
                        self.phase = Phase::ValueArray;
                    } else {
                        self.phase = Phase::Skip(0);
                    }
                    Ok(CollectStep::Continue)
                },
                Some(_) => Err(MyError::new(String::from_str("Invalid top level JSON structure of response"))),
            },
            Phase::NextLink => match token {
                Some(JsonToken::JsString(s)) => {
                    self.next = Some(s.clone());
                    self.phase = Phase::TopLevel;
                    Ok(CollectStep::Continue)
                },
                Some(_) => Err(MyError::new(String::from_str("Expected a string value for key '@odata.nextLink'"))),
                None => Err(MyError::new(String::from_str("Expected a value after key '@odata.nextLink'"))),
            },
            Phase::ValueArray => match token {
                Some(JsonToken::StartArray) => {
                    self.phase = Phase::Content;
                    Ok(CollectStep::Continue)
                },
                _ => Err(MyError::new(String::from_str("Expected an array for key 'value'"))),
            },
            Phase::Content => {
                let step = self.stream.stream_token(token);
                match step {
                    Err(e) => Err(e),
                    Ok(StreamStep::Emit(t)) => Ok(CollectStep::Emit(t)),
                    Ok(StreamStep::Skip) => Ok(CollectStep::Continue),
                    Ok(StreamStep::Done) => {
                        if self.kind == ResponseKind::Entity {
                            self.phase = Phase::Closed;
                            Ok(CollectStep::Finished(self.next.clone()))
                        } else {
                            self.phase = Phase::TopLevel;
                            Ok(CollectStep::Continue)
                        }
                    },
                }
            },
            Phase::Skip(d) => match token {
                None => {
                    self.phase = Phase::Closed;
                    Ok(CollectStep::Finished(self.next.clone()))
                },
                Some(t) => {
                    match t {
                        JsonToken::StartObject | JsonToken::StartArray => {
                            if d == usize::MAX {
                                return Err(MyError::new(String::from_str("Nesting too deep")));
                            }
                            self.phase = Phase::Skip(d + 1);
                        },
                        JsonToken::EndObject | JsonToken::EndArray => {
                            if d == 0 {
                                return Err(MyError::new(String::from_str("Invalid top level JSON structure of response")));
                            } else if d == 1 {
                                self.phase = Phase::TopLevel;
                            } else {
                                self.phase = Phase::Skip(d - 1);
                            }
                        },
                        JsonToken::JsKey(_) => {},
                        _ => {
                            if d == 0 {
                                self.phase = Phase::TopLevel;
                            }
                        },
                    }
                    Ok(CollectStep::Continue)
                },
            },
            Phase::Closed => Ok(CollectStep::Finished(self.next.clone())),
        }
    }
}

} // verus!
