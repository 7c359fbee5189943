//! The event producer: walks the tokens of a document at a configured depth
//! and turns each into an event annotated with its path, leaving out every
//! event under an OData control key (`@odata.*`).
//!
//! The producer decides one token at a time; whoever owns it feeds the tokens
//! and delivers the events.
use vstd::prelude::*;
use crate::decode::{Context, JsonToken, Step, TokenType, decode_outcome, key_step,
    pop_frame, token_is, value_step, ws_end};
use crate::model::{MyError, Token, Value, ValuePath, ValuePosition, path_text};

verus! {

/// The shape that the caller has positioned the token stream on.
#[derive(Debug, Clone, Copy, PartialEq, Eq, Structural)]
pub enum RootEntityType {
    Array,
    Object,
    Value,
}

/// The characters of the prefix of OData control keys.
pub open spec fn odata_prefix() -> Seq<char> {
    seq!['@', 'o', 'd', 'a', 't', 'a', '.']
}

pub open spec fn is_odata_text(k: Seq<char>) -> bool {
    k.len() >= 7 && k.subrange(0, 7) == odata_prefix()
}

/// Whether no step of the path is an OData control key.
pub open spec fn odata_free(path: Seq<ValuePosition>) -> bool {
    forall|i: int| 0 <= i < path.len() ==> !(#[trigger] path[i] matches ValuePosition::Key(k) && is_odata_text(k@))
}

/// The path of a value that starts while `index` is active.
pub open spec fn with_index(path: Seq<ValuePosition>, index: Option<usize>) -> Seq<ValuePosition> {
    match index {
        Some(i) => path.push(ValuePosition::Index(i)),
        None => path,
    }
}

/// The path after a value at `path` is finished: its last step goes.
pub open spec fn leave_path(path: Seq<ValuePosition>) -> Seq<ValuePosition> {
    if path.len() > 0 { path.drop_last() } else { path }
}

/// The index after a value at `path` is finished: the next one if the value
/// was an element of an array.
pub open spec fn leave_index(path: Seq<ValuePosition>) -> Option<usize> {
    if path.len() > 0 && path.last() is Index {
        Some((path.last()->Index_0 + 1) as usize)
    } else {
        None
    }
}

/// Whether finishing the value at `path` would take an array index past the
/// largest `usize`.
pub open spec fn leave_overflows(path: Seq<ValuePosition>) -> bool {
    path.len() > 0 && (path.last() matches ValuePosition::Index(i) && i == usize::MAX)
}

/// The value of an event for a token other than a key.
pub open spec fn value_of(t: JsonToken) -> Value {
    match t {
        JsonToken::StartObject => Value::StartObject,
        JsonToken::EndObject => Value::EndObject,
        JsonToken::StartArray => Value::StartArray,
        JsonToken::EndArray => Value::EndArray,
        JsonToken::JsNull => Value::Null,
        JsonToken::JsBoolean(b) => Value::Boolean(b),
        JsonToken::JsNumber(s) => Value::Number(s),
        JsonToken::JsString(s) => Value::String(s),
        JsonToken::JsKey(s) => Value::String(s),
    }
}

/// What the producer does with one token: its new path and index, the event
/// it sends (if any), whether the token closes the walk, and whether an
/// array index would overflow.
pub struct Produced {
    pub path: Seq<ValuePosition>,
    pub index: Option<usize>,
    pub event: Option<(Seq<ValuePosition>, Value)>,
    pub done: bool,
    pub overflow: bool,
}

/// The event for `value` at `path`, unless the path holds a control key.
pub open spec fn sent(path: Seq<ValuePosition>, value: Value) -> Option<(Seq<ValuePosition>, Value)> {
    if odata_free(path) { Some((path, value)) } else { None }
}

pub open spec fn finished(path: Seq<ValuePosition>, event: Option<(Seq<ValuePosition>, Value)>) -> Produced {
    Produced {
        path: leave_path(path),
        index: leave_index(path),
        event,
        done: false,
        overflow: leave_overflows(path),
    }
}

/// One step of the producer from path `path` and active index `index`:
/// a key extends the path; an opening token is sent at the path with the
/// active index applied, and starts a fresh index (arrays) or none
/// (objects); a scalar is sent likewise and its value is then finished; a
/// closing token at the top level ends the walk, elsewhere it is sent and
/// finishes its value.
pub open spec fn produce(path: Seq<ValuePosition>, index: Option<usize>, t: JsonToken) -> Produced {
    match t {
        JsonToken::JsKey(k) => Produced {
            path: path.push(ValuePosition::Key(k)),
            index,
            event: None,
            done: false,
            overflow: false,
        },
        JsonToken::StartArray => {
            let p = with_index(path, index);
            Produced { path: p, index: Some(0usize), event: sent(p, Value::StartArray), done: false, overflow: false }
        },
        JsonToken::StartObject => {
            let p = with_index(path, index);
            Produced { path: p, index: None, event: sent(p, Value::StartObject), done: false, overflow: false }
        },
        JsonToken::EndObject | JsonToken::EndArray => {
            if path.len() == 0 {
                Produced { path, index, event: None, done: true, overflow: false }
            } else {
                finished(path, sent(path, value_of(t)))
            }
        },
        _ => {
            let p = with_index(path, index);
            finished(p, sent(p, value_of(t)))
        },
    }
}

/// What the owner of the producer does after one token.
#[derive(Debug)]
pub enum StreamStep {
    /// Send this event, then go on with the next token.
    Emit(Token),
    /// Nothing to send; go on with the next token.
    Skip,
    /// The walk is over: the token closed the level the producer started on.
    Done,
}

/// Walks a token stream at a configured starting depth and produces events.
pub struct EntityStreamer {
    path: ValuePath,
    index: Option<usize>,
    root_entity: RootEntityType,
}

fn is_odata_key(k: &String) -> (r: bool)
    ensures
        r == is_odata_text(k@),
{
    let s = k.as_str();
    let n = s.unicode_len();
    if n < 7 {
        return false;
    }
    let prefix = "@odata.";
    proof {
        reveal_strlit("@odata.");
    }
    assert(prefix@ == odata_prefix());
    let mut i: usize = 0;
    while i < 7
        invariant
            i <= 7 <= s@.len(),
            s@ == k@,
            prefix@ == odata_prefix(),
            forall|j: int| 0 <= j < i ==> s@[j] == odata_prefix()[j],
        decreases 7 - i,
    {
        if s.get_char(i) != prefix.get_char(i) {
            assert(s@.subrange(0, 7)[i as int] != odata_prefix()[i as int]);
            return false;
        }
        i = i + 1;
    }
    assert(s@.subrange(0, 7) =~= odata_prefix());
    true
}

/// Whether no step of the path is an OData control key.
fn should_send(path: &ValuePath) -> (r: bool)
    ensures
        r == odata_free(path@),
{
    let n = path.current_level();
    let mut i: usize = 0;
    while i < n
        invariant
            n == path@.len(),
            i <= n,
            forall|j: int| 0 <= j < i ==> !(#[trigger] path@[j] matches ValuePosition::Key(k) && is_odata_text(k@)),
        decreases n - i,
    {
        if let ValuePosition::Key(k) = path.step(i) {
            if is_odata_key(k) {
                return false;
            }
        }
        i = i + 1;
    }
    true
}

impl EntityStreamer {
    /// The current path.
    pub closed spec fn spec_path(&self) -> Seq<ValuePosition> {
        self.path@
    }

    /// The active array index, if the producer is inside an array.
    pub closed spec fn spec_index(&self) -> Option<usize> {
        self.index
    }

    pub closed spec fn root(&self) -> RootEntityType {
        self.root_entity
    }

    /// A producer for a stream positioned on `root_entity`; `begin` gives
    /// its opening event.
    pub fn new(root_entity: RootEntityType) -> (r: EntityStreamer)
        ensures
            r.spec_path() == Seq::<ValuePosition>::empty(),
            r.spec_index() is None,
            r.root() == root_entity,
    {
        EntityStreamer { path: ValuePath::new(), index: None, root_entity }
    }

    /// The opening framing event: `StartArray` or `StartObject` at the empty
    /// path, none for a bare value. An array root starts its index at 0.
    pub fn begin(&mut self) -> (r: Option<Token>)
        ensures
            final(self).spec_path() == old(self).spec_path(),
            final(self).root() == old(self).root(),
            old(self).root() == RootEntityType::Array ==> (final(self).spec_index() == Some(0usize)
                && (r matches Some(t) && t.path@ == Seq::<ValuePosition>::empty() && t.value == Value::StartArray)),
            old(self).root() == RootEntityType::Object ==> (final(self).spec_index() == old(self).spec_index()
                && (r matches Some(t) && t.path@ == Seq::<ValuePosition>::empty() && t.value == Value::StartObject)),
            old(self).root() == RootEntityType::Value ==> final(self).spec_index() == old(self).spec_index()
                && r is None,
    {
        match self.root_entity {
            RootEntityType::Array => {
                self.index = Some(0);
                Some(Token { path: ValuePath::new(), value: Value::StartArray })
            },
            RootEntityType::Object => Some(Token { path: ValuePath::new(), value: Value::StartObject }),
            RootEntityType::Value => None,
        }
    }

    /// The closing framing event, matching the one of `begin`.
    pub fn end(&self) -> (r: Option<Token>)
        ensures
            self.root() == RootEntityType::Array ==> (r matches Some(t) && t.path@ == Seq::<ValuePosition>::empty()
                && t.value == Value::EndArray),
            self.root() == RootEntityType::Object ==> (r matches Some(t) && t.path@ == Seq::<ValuePosition>::empty()
                && t.value == Value::EndObject),
            self.root() == RootEntityType::Value ==> r is None,
    {
        match self.root_entity {
            RootEntityType::Array => Some(Token { path: ValuePath::new(), value: Value::EndArray }),
            RootEntityType::Object => Some(Token { path: ValuePath::new(), value: Value::EndObject }),
            RootEntityType::Value => None,
        }
    }

    /// The error for content that ends before the walk does, naming the
    /// last path.
    pub fn premature_end(&self) -> (r: MyError)
        ensures
            r.message@ == premature_end_message(self.spec_path()),
    {
        let mut message = String::from_str("Premature end of content at position ");
        let position = self.path.get_path_string();
        message.append(position.as_str());
        MyError::new(message)
    }

    fn end_of_scope(&self) -> (r: bool)
        ensures
            r == (self.path@.len() == 0),
    {
        self.path.is_empty()
    }

    fn apply_key(&mut self, key: String)
        ensures
            final(self).path@ == old(self).path@.push(ValuePosition::Key(key)),
            final(self).index == old(self).index,
            final(self).root_entity == old(self).root_entity,
    {
        self.path.push(ValuePosition::Key(key));
    }

    fn apply_index(&mut self)
        ensures
            final(self).path@ == with_index(old(self).path@, old(self).index),
            final(self).index == old(self).index,
            final(self).root_entity == old(self).root_entity,
    {
        if let Some(index_value) = self.index {
            self.path.push(ValuePosition::Index(index_value));
        }
    }

    fn leave_nesting(&mut self) -> (r: Result<(), MyError>)
        ensures
            final(self).root_entity == old(self).root_entity,
            leave_overflows(old(self).path@) <==> r is Err,
            r matches Err(e) ==> e.message@ == index_overflow_message(),
            r is Ok ==> final(self).path@ == leave_path(old(self).path@)
                && final(self).index == leave_index(old(self).path@),
    {
        let previous = self.path.pop();
        if let Some(ValuePosition::Index(index_value)) = previous {
            if index_value == usize::MAX {
                return Err(MyError::new(String::from_str("Array index out of range")));
            }
            self.index = Some(index_value + 1);
        } else {
            self.index = None;
        }
        Ok(())
    }

    fn start_index(&mut self)
        ensures
            final(self).path@ == old(self).path@,
            final(self).index == Some(0usize),
            final(self).root_entity == old(self).root_entity,
    {
        self.index = Some(0);
    }

    /// The event for `value` at the current path, unless the path holds a
    /// control key.
    fn event(&self, value: Value) -> (r: StreamStep)
        ensures
            odata_free(self.path@) ==> (r matches StreamStep::Emit(t) && t.path@ == self.path@ && t.value == value),
            !odata_free(self.path@) ==> r is Skip,
    {
        if should_send(&self.path) {
            StreamStep::Emit(Token { path: self.path.duplicate(), value })
        } else {
            StreamStep::Skip
        }
    }

    /// Handles the current token of the stream. Without a token the content
    /// ended before the walk did, which is an error naming the last path.
    pub fn stream_token(&mut self, token: &Option<JsonToken>) -> (r: Result<StreamStep, MyError>)
        ensures
            final(self).root() == old(self).root(),
            *token is None ==> (r matches Err(e) && e.message@ == premature_end_message(old(self).spec_path())),
            *token matches Some(t) ==> step_matches(produce(old(self).spec_path(), old(self).spec_index(), t), r,
                final(self).spec_path(), final(self).spec_index()),
    {
        let json_content = match token {
            None => {
                return Err(self.premature_end());
            },
            Some(t) => t,
        };
        match json_content {
            JsonToken::JsKey(key) => {
                self.apply_key(key.clone());
                Ok(StreamStep::Skip)
            },
            JsonToken::StartArray => {
                self.apply_index();
                let step = self.event(Value::StartArray);
                self.start_index();
                Ok(step)
            },
            JsonToken::StartObject => {
                self.apply_index();
                let step = self.event(Value::StartObject);
                self.index = None;
                Ok(step)
            },
            JsonToken::EndObject | JsonToken::EndArray => {
                if self.end_of_scope() {
                    return Ok(StreamStep::Done);
                }
                let value = if let JsonToken::EndObject = json_content { Value::EndObject } else { Value::EndArray };
                let step = self.event(value);
                self.leave_nesting()?;
                Ok(step)
            },
            _ => {
                let value = match json_content {
                    JsonToken::JsNull => Value::Null,
                    JsonToken::JsBoolean(b) => Value::Boolean(*b),
                    JsonToken::JsNumber(s) => Value::Number(s.clone()),
                    JsonToken::JsString(s) => Value::String(s.clone()),
                    _ => Value::Null,
                };
                self.apply_index();
                let step = self.event(value);
                self.leave_nesting()?;
                Ok(step)
            },
        }
    }
}

/// The message of an error for an array index past the largest `usize`.
pub open spec fn index_overflow_message() -> Seq<char> {
    "Array index out of range"@
}

/// The message of an error for content that ends inside the walk.
pub open spec fn premature_end_message(path: Seq<ValuePosition>) -> Seq<char> {
    "Premature end of content at position "@ + path_text(path)
}

/// Whether the result `r` of a step and the new state `(path, index)` are
/// those that `p` describes; an overflowing index is an error.
pub open spec fn step_matches(
    p: Produced,
    r: Result<StreamStep, MyError>,
    path: Seq<ValuePosition>,
    index: Option<usize>,
) -> bool {
    if p.overflow {
        r matches Err(e) && e.message@ == index_overflow_message()
    } else if p.done {
        r matches Ok(StreamStep::Done) && path == p.path && index == p.index
    } else {
        &&& path == p.path
        &&& index == p.index
        &&& match p.event {
            Some((ep, ev)) => r matches Ok(StreamStep::Emit(t)) && t.path@ == ep && t.value == ev,
            None => r matches Ok(StreamStep::Skip),
        }
    }
}


/// The producer over a sequence of tokens: its final path and index, the
/// events it sent, and whether it stopped (the walk ended, or an index would
/// overflow) before the last token.
pub struct Run {
    pub path: Seq<ValuePosition>,
    pub index: Option<usize>,
    pub events: Seq<(Seq<ValuePosition>, Value)>,
    pub stopped: bool,
}

pub open spec fn event_seq(e: Option<(Seq<ValuePosition>, Value)>) -> Seq<(Seq<ValuePosition>, Value)> {
    match e {
        Some(x) => seq![x],
        None => seq![],
    }
}

pub open spec fn run(path: Seq<ValuePosition>, index: Option<usize>, ts: Seq<JsonToken>) -> Run
    decreases ts.len(),
{
    if ts.len() == 0 {
        Run { path, index, events: seq![], stopped: false }
    } else {
        let p = produce(path, index, ts[0]);
        if p.done || p.overflow {
            Run { path, index, events: seq![], stopped: true }
        } else {
            let rest = run(p.path, p.index, ts.drop_first());
            Run { path: rest.path, index: rest.index, events: event_seq(p.event) + rest.events, stopped: rest.stopped }
        }
    }
}

/// Running the producer over two sequences in turn, when the first does not
/// stop it, is running it over their concatenation.
pub proof fn lemma_run_concat(path: Seq<ValuePosition>, index: Option<usize>, t1: Seq<JsonToken>, t2: Seq<JsonToken>)
    requires
        !run(path, index, t1).stopped,
    ensures
        ({
            let r1 = run(path, index, t1);
            let r2 = run(r1.path, r1.index, t2);
            run(path, index, t1 + t2) == Run { path: r2.path, index: r2.index, events: r1.events + r2.events,
                stopped: r2.stopped }
        }),
    decreases t1.len(),
{
    if t1.len() == 0 {
        assert(t1 + t2 =~= t2);
        let r2 = run(path, index, t2);
        assert(Seq::<(Seq<ValuePosition>, Value)>::empty() + r2.events =~= r2.events);
    } else {
        let p = produce(path, index, t1[0]);
        assert((t1 + t2)[0] == t1[0]);
        assert((t1 + t2).drop_first() =~= t1.drop_first() + t2);
        lemma_run_concat(p.path, p.index, t1.drop_first(), t2);
        let r1 = run(path, index, t1);
        let r2 = run(r1.path, r1.index, t2);
        let rest1 = run(p.path, p.index, t1.drop_first());
        assert(event_seq(p.event) + (rest1.events + r2.events) =~= (event_seq(p.event) + rest1.events) + r2.events);
    }
}

/// Pagination transparency: streaming the elements of one page's `value`
/// array up to its closing `]`, and then, with the same producer, those of
/// the next page up to theirs, yields the events that streaming the elements
/// of both pages in one array yields, and leaves the producer in the same
/// state. The first page's `]` ends its walk without an event and without
/// touching the path or the index, so the next page's elements go on
/// counting where the first page's stopped.
pub proof fn lemma_pagination_transparent(index: Option<usize>, page1: Seq<JsonToken>, page2: Seq<JsonToken>)
    requires
        !run(seq![], index, page1).stopped,
        run(seq![], index, page1).path == Seq::<ValuePosition>::empty(),
    ensures
        ({
            let r1 = run(seq![], index, page1.push(JsonToken::EndArray));
            let r2 = run(r1.path, r1.index, page2.push(JsonToken::EndArray));
            let whole = run(seq![], index, (page1 + page2).push(JsonToken::EndArray));
            &&& r1.stopped
            &&& r1.path == Seq::<ValuePosition>::empty()
            &&& r1.index == run(seq![], index, page1).index
            &&& r1.events + r2.events == whole.events
            &&& r2.path == whole.path
            &&& r2.index == whole.index
            &&& r2.stopped == whole.stopped
        }),
{
    let e: Seq<JsonToken> = seq![JsonToken::EndArray];
    let r0 = run(seq![], index, page1);
    lemma_run_concat(seq![], index, page1, e);
    assert(page1.push(JsonToken::EndArray) =~= page1 + e);
    let stop = run(r0.path, r0.index, e);
    assert(produce(r0.path, r0.index, e[0]).done);
    assert(stop.events =~= Seq::<(Seq<ValuePosition>, Value)>::empty());
    let tail = page2.push(JsonToken::EndArray);
    lemma_run_concat(seq![], index, page1, tail);
    assert((page1 + page2).push(JsonToken::EndArray) =~= page1 + tail);
    assert(r0.events + Seq::<(Seq<ValuePosition>, Value)>::empty() =~= r0.events);
}


/// The element tokens of several pages, one page after the other.
pub open spec fn flatten_pages(ps: Seq<Seq<JsonToken>>) -> Seq<JsonToken>
    decreases ps.len(),
{
    if ps.len() == 0 { seq![] } else { ps[0] + flatten_pages(ps.drop_first()) }
}

/// Whether the elements of each page, streamed from where the previous page
/// left the producer, neither stop it nor leave it inside a value.
pub open spec fn pages_complete(index: Option<usize>, ps: Seq<Seq<JsonToken>>) -> bool
    decreases ps.len(),
{
    ps.len() == 0 || {
        let r = run(seq![], index, ps[0]);
        !r.stopped && r.path == Seq::<ValuePosition>::empty() && pages_complete(r.index, ps.drop_first())
    }
}

/// The events of streaming each page's elements up to its closing `]`, in
/// turn, with one producer.
pub open spec fn paged_events(index: Option<usize>, ps: Seq<Seq<JsonToken>>) -> Seq<(Seq<ValuePosition>, Value)>
    decreases ps.len(),
{
    if ps.len() == 0 {
        seq![]
    } else {
        let r = run(seq![], index, ps[0].push(JsonToken::EndArray));
        r.events + paged_events(r.index, ps.drop_first())
    }
}

/// Pagination transparency for any number of pages: streaming the `value`
/// arrays of the pages one after the other, each up to its own `]`, with
/// one producer, yields the events of streaming one array holding the
/// elements of all pages; element indices go on across pages.
pub proof fn lemma_pages_transparent(index: Option<usize>, ps: Seq<Seq<JsonToken>>)
    requires
        pages_complete(index, ps),
    ensures
        paged_events(index, ps) == run(seq![], index, flatten_pages(ps).push(JsonToken::EndArray)).events,
    decreases ps.len(),
{
    if ps.len() == 0 {
        let e: Seq<JsonToken> = seq![JsonToken::EndArray];
        assert(flatten_pages(ps).push(JsonToken::EndArray) =~= e);
        assert(produce(seq![], index, e[0]).done);
    } else {
        let rest = ps.drop_first();
        let r0 = run(seq![], index, ps[0]);
        lemma_pagination_transparent(index, ps[0], flatten_pages(rest));
        lemma_pages_transparent(r0.index, rest);
        assert(flatten_pages(ps) == ps[0] + flatten_pages(rest));
    }
}

/// Whether a step may stand under a frame: an index in an array, a key in
/// an object.
pub open spec fn step_under(f: Context, s: ValuePosition) -> bool {
    if f == Context::Array { s is Index } else { s is Key }
}

/// How the producer's state lines up with the tokenizer's while it walks:
/// `opened[k]` is the path at which the container of the `k`-th frame was
/// opened (the root's is empty), each one step below the one before. Inside
/// an array the producer stands at the array's path with an active index;
/// inside an object it stands at the object's path, or one key below it
/// right after a key.
pub open spec fn aligned(
    frames: Seq<Context>,
    prev: TokenType,
    opened: Seq<Seq<ValuePosition>>,
    path: Seq<ValuePosition>,
    index: Option<usize>,
) -> bool {
    &&& frames.len() >= 1
    &&& opened.len() == frames.len()
    &&& opened[0] == Seq::<ValuePosition>::empty()
    &&& forall|k: int| 1 <= k < opened.len() ==> #[trigger] opened[k].len() == opened[k - 1].len() + 1
        && opened[k].drop_last() == opened[k - 1] && step_under(frames[k - 1], opened[k].last())
    &&& frames.last() == Context::Array ==> path == opened.last() && index is Some
        && (prev == TokenType::ArrayStart || prev == TokenType::Value)
    &&& frames.last() == Context::Object ==> index is None
        && (prev == TokenType::ObjectStart || prev == TokenType::Value || prev == TokenType::Key)
        && (prev == TokenType::Key ==> path.len() == opened.last().len() + 1 && path.drop_last() == opened.last()
            && path.last() is Key)
        && (prev != TokenType::Key ==> path == opened.last())
}

/// The paths of the open containers after token `t`: an opening token
/// pushes the path of its start event, a closing token pops.
pub open spec fn reopened(
    opened: Seq<Seq<ValuePosition>>,
    t: JsonToken,
    path: Seq<ValuePosition>,
    index: Option<usize>,
) -> Seq<Seq<ValuePosition>> {
    if t is StartObject || t is StartArray {
        opened.push(with_index(path, index))
    } else if t is EndObject || t is EndArray {
        opened.drop_last()
    } else {
        opened
    }
}

proof fn lemma_value_step_shape(stack: Seq<Context>, prev: TokenType, b: Seq<u8>, i: int, eos: bool)
    ensures
        value_step(stack, prev, b, i, eos) matches Step::Emit(lex, _, st2, pv2) ==> {
            ||| lex is StartObject && st2 == stack.push(Context::Object) && pv2 == TokenType::ObjectStart
            ||| lex is StartArray && st2 == stack.push(Context::Array) && pv2 == TokenType::ArrayStart
            ||| lex is EndArray && prev == TokenType::ArrayStart && st2 == pop_frame(stack) && pv2 == TokenType::Value
            ||| (lex is Null || lex is Boolean || lex is Number || lex is Str) && st2 == stack
                && pv2 == TokenType::Value
        },
{
}

proof fn lemma_key_step_shape(stack: Seq<Context>, b: Seq<u8>, i: int)
    ensures
        key_step(stack, b, i) matches Step::Emit(lex, _, st2, pv2) ==> lex is Key && st2 == stack
            && pv2 == TokenType::Key,
{
}

/// Whether the tokenizer stands where a value comes next: after a key in an
/// object, or at the start of an array or after one of its elements.
pub open spec fn at_value(frames: Seq<Context>, prev: TokenType) -> bool {
    (frames.last() == Context::Object && prev == TokenType::Key)
        || (frames.last() == Context::Array && (prev == TokenType::ArrayStart || prev == TokenType::Value))
}

/// The tokenizer's states that `aligned` admits.
pub open spec fn settled(frames: Seq<Context>, prev: TokenType) -> bool {
    &&& frames.len() >= 1
    &&& frames.last() == Context::Array ==> (prev == TokenType::ArrayStart || prev == TokenType::Value)
    &&& frames.last() == Context::Object ==> (prev == TokenType::ObjectStart || prev == TokenType::Value
        || prev == TokenType::Key)
}

/// Which frames and category follow each kind of token.
proof fn lemma_decode_shape(frames: Seq<Context>, prev: TokenType, b: Seq<u8>, eos: bool)
    requires
        settled(frames, prev),
    ensures
        decode_outcome(frames, prev, b, eos) matches Step::Emit(lex, _, f2, pv2) ==> {
            ||| lex is Key && f2 == frames && pv2 == TokenType::Key && frames.last() == Context::Object
                && prev != TokenType::Key
            ||| (lex is Null || lex is Boolean || lex is Number || lex is Str) && f2 == frames
                && pv2 == TokenType::Value && at_value(frames, prev)
            ||| lex is StartObject && f2 == frames.push(Context::Object) && pv2 == TokenType::ObjectStart
                && at_value(frames, prev)
            ||| lex is StartArray && f2 == frames.push(Context::Array) && pv2 == TokenType::ArrayStart
                && at_value(frames, prev)
            ||| lex is EndObject && frames.last() == Context::Object && prev != TokenType::Key
                && f2 == frames.drop_last() && pv2 == TokenType::Value
            ||| lex is EndArray && frames.last() == Context::Array && f2 == frames.drop_last()
                && pv2 == TokenType::Value
        },
{
    let i = ws_end(b, 0);
    let j = ws_end(b, i + 1);
    lemma_value_step_shape(frames, prev, b, i, eos);
    lemma_value_step_shape(frames, TokenType::ObjectColon, b, j, eos);
    lemma_value_step_shape(frames, TokenType::ArrayComma, b, j, eos);
    lemma_key_step_shape(frames, b, i);
    lemma_key_step_shape(frames, b, j);
}

proof fn lemma_opened_prefix(frames: Seq<Context>, opened: Seq<Seq<ValuePosition>>, frames2: Seq<Context>,
    opened2: Seq<Seq<ValuePosition>>)
    requires
        opened.len() == frames.len(),
        frames2.len() <= frames.len(),
        opened2.len() == frames2.len(),
        forall|k: int| 0 <= k < opened2.len() ==> opened2[k] == opened[k] && frames2[k] == frames[k],
        forall|k: int| 1 <= k < opened.len() ==> #[trigger] opened[k].len() == opened[k - 1].len() + 1
            && opened[k].drop_last() == opened[k - 1] && step_under(frames[k - 1], opened[k].last()),
    ensures
        forall|k: int| 1 <= k < opened2.len() ==> #[trigger] opened2[k].len() == opened2[k - 1].len() + 1
            && opened2[k].drop_last() == opened2[k - 1] && step_under(frames2[k - 1], opened2[k].last()),
{
    assert forall|k: int| 1 <= k < opened2.len() implies #[trigger] opened2[k].len() == opened2[k - 1].len() + 1
        && opened2[k].drop_last() == opened2[k - 1] && step_under(frames2[k - 1], opened2[k].last()) by {
        assert(opened[k].len() == opened[k - 1].len() + 1);
    }
}

proof fn lemma_nest_open(
    frames: Seq<Context>,
    prev: TokenType,
    opened: Seq<Seq<ValuePosition>>,
    path: Seq<ValuePosition>,
    index: Option<usize>,
    t: JsonToken,
    frames2: Seq<Context>,
    prev2: TokenType,
)
    requires
        aligned(frames, prev, opened, path, index),
        at_value(frames, prev),
        t is StartObject ==> frames2 == frames.push(Context::Object) && prev2 == TokenType::ObjectStart,
        t is StartArray ==> frames2 == frames.push(Context::Array) && prev2 == TokenType::ArrayStart,
        t is StartObject || t is StartArray,
    ensures
        ({
            let p = produce(path, index, t);
            &&& !p.done
            &&& aligned(frames2, prev2, reopened(opened, t, path, index), p.path, p.index)
            &&& p.event matches Some((ep, _)) ==> ep == reopened(opened, t, path, index).last()
        }),
{
    let op2 = reopened(opened, t, path, index);
    let n = opened.len();
    lemma_opened_prefix(frames, opened, frames, opened);
    assert forall|k: int| 1 <= k < op2.len() implies #[trigger] op2[k].len() == op2[k - 1].len() + 1
        && op2[k].drop_last() == op2[k - 1] && step_under(frames2[k - 1], op2[k].last()) by {
        if k == n {
            assert(frames2[k - 1] == frames.last());
            if let Some(i) = index {
                assert(path.push(ValuePosition::Index(i)).drop_last() =~= path);
            }
        } else {
            assert(op2[k] == opened[k] && op2[k - 1] == opened[k - 1] && frames2[k - 1] == frames[k - 1]);
        }
    }
}

proof fn lemma_nest_close(
    frames: Seq<Context>,
    prev: TokenType,
    opened: Seq<Seq<ValuePosition>>,
    path: Seq<ValuePosition>,
    index: Option<usize>,
    t: JsonToken,
    frames2: Seq<Context>,
    prev2: TokenType,
)
    requires
        aligned(frames, prev, opened, path, index),
        t is EndObject ==> frames.last() == Context::Object && prev != TokenType::Key,
        t is EndArray ==> frames.last() == Context::Array,
        t is EndObject || t is EndArray,
        frames2 == frames.drop_last(),
        prev2 == TokenType::Value,
        !produce(path, index, t).overflow,
    ensures
        ({
            let p = produce(path, index, t);
            if frames2.len() == 0 {
                p.done && p.event is None
            } else {
                &&& !p.done
                &&& aligned(frames2, prev2, reopened(opened, t, path, index), p.path, p.index)
                &&& p.event matches Some((ep, _)) ==> ep == opened.last()
            }
        }),
{
    let n = opened.len();
    assert(path == opened.last());
    if n >= 2 {
        let op2 = reopened(opened, t, path, index);
        assert(op2 =~= opened.subrange(0, n - 1));
        assert(frames2 =~= frames.subrange(0, n - 1));
        lemma_opened_prefix(frames, opened, frames2, op2);
        assert(opened[n - 1].len() == opened[n - 2].len() + 1);
        assert(step_under(frames[n - 2], opened[n - 1].last()));
        assert(frames2.last() == frames[n - 2]);
    }
}

proof fn lemma_nest_member(
    frames: Seq<Context>,
    prev: TokenType,
    opened: Seq<Seq<ValuePosition>>,
    path: Seq<ValuePosition>,
    index: Option<usize>,
    t: JsonToken,
    frames2: Seq<Context>,
    prev2: TokenType,
)
    requires
        aligned(frames, prev, opened, path, index),
        !(t is StartObject || t is StartArray || t is EndObject || t is EndArray),
        t is JsKey ==> frames.last() == Context::Object && prev != TokenType::Key && prev2 == TokenType::Key,
        !(t is JsKey) ==> at_value(frames, prev) && prev2 == TokenType::Value,
        frames2 == frames,
        !produce(path, index, t).overflow,
    ensures
        ({
            let p = produce(path, index, t);
            &&& !p.done
            &&& aligned(frames2, prev2, reopened(opened, t, path, index), p.path, p.index)
        }),
{
    if let Some(i) = index {
        assert(path.push(ValuePosition::Index(i)).drop_last() =~= path);
    }
    if let JsonToken::JsKey(k) = t {
        assert(path.push(ValuePosition::Key(k)).drop_last() =~= path);
    }
}

/// Path monotonicity: fed the tokens of the tokenizer, the producer walks
/// the document depth first. Its state stays aligned with the tokenizer's
/// (see `aligned`), where `opened` holds the path of the start event of
/// each open container; an opening token's event carries the path it
/// pushes there, and a closing token's event carries the path it pops, so
/// every `End*` event has the path of its matching `Start*`. The token that
/// closes the root ends the walk without an event.
pub proof fn lemma_paths_nest(
    frames: Seq<Context>,
    prev: TokenType,
    opened: Seq<Seq<ValuePosition>>,
    path: Seq<ValuePosition>,
    index: Option<usize>,
    b: Seq<u8>,
    eos: bool,
    t: JsonToken,
)
    requires
        aligned(frames, prev, opened, path, index),
        decode_outcome(frames, prev, b, eos) matches Step::Emit(lex, _, _, _) && token_is(t, lex, b),
        !produce(path, index, t).overflow,
    ensures
        decode_outcome(frames, prev, b, eos) matches Step::Emit(_, _, frames2, prev2) && {
            let p = produce(path, index, t);
            if frames2.len() == 0 {
                p.done && p.event is None
            } else {
                &&& !p.done
                &&& aligned(frames2, prev2, reopened(opened, t, path, index), p.path, p.index)
                &&& (t is StartObject || t is StartArray) ==> (p.event matches Some((ep, _))
                    ==> ep == reopened(opened, t, path, index).last())
                &&& (t is EndObject || t is EndArray) ==> (p.event matches Some((ep, _)) ==> ep == opened.last())
            }
        },
{
    lemma_decode_shape(frames, prev, b, eos);
    if let Step::Emit(lex, e, frames2, prev2) = decode_outcome(frames, prev, b, eos) {
        if t is StartObject || t is StartArray {
            lemma_nest_open(frames, prev, opened, path, index, t, frames2, prev2);
        } else if t is EndObject || t is EndArray {
            lemma_nest_close(frames, prev, opened, path, index, t, frames2, prev2);
        } else {
            lemma_nest_member(frames, prev, opened, path, index, t, frames2, prev2);
        }
    }
}


/// The walk starts aligned: after the caller has consumed the opening `[`
/// of an array root (the producer's index at 0), or the opening `{` of an
/// object root, at the empty path.
pub proof fn lemma_walk_starts_aligned()
    ensures
        aligned(seq![Context::Array], TokenType::ArrayStart, seq![Seq::<ValuePosition>::empty()],
            Seq::<ValuePosition>::empty(), Some(0usize)),
        aligned(seq![Context::Object], TokenType::ObjectStart, seq![Seq::<ValuePosition>::empty()],
            Seq::<ValuePosition>::empty(), None),
        sent_entries(open_entries(seq![Context::Array], seq![Seq::<ValuePosition>::empty()], Some(0usize)))
            == seq![(Seq::<ValuePosition>::empty(), Some(0nat))],
        sent_entries(open_entries(seq![Context::Object], seq![Seq::<ValuePosition>::empty()], None))
            == seq![(Seq::<ValuePosition>::empty(), None::<nat>)],
{
    let root: Seq<ValuePosition> = Seq::<ValuePosition>::empty();
    let none: Seq<OpenEntry> = seq![];
    assert(odata_free(root));
    let a = open_entries(seq![Context::Array], seq![root], Some(0usize));
    assert(a =~= none.push((root, Some(0nat))));
    lemma_sent_entries_push(none, (root, Some(0nat)));
    let o = open_entries(seq![Context::Object], seq![root], None);
    assert(o =~= none.push((root, None::<nat>)));
    lemma_sent_entries_push(none, (root, None::<nat>));
    reveal(Seq::filter);
    assert(sent_entries(none) =~= none);
    assert(none.push((root, Some(0nat))) =~= seq![(root, Some(0nat))]);
    assert(none.push((root, None::<nat>)) =~= seq![(root, None::<nat>)]);
}


/// The tokenizer's move on a token of kind `t` from `(frames, prev)`: the
/// new frames and category, or `None` where it never yields such a token.
pub open spec fn tok_next(frames: Seq<Context>, prev: TokenType, t: JsonToken) -> Option<(Seq<Context>, TokenType)> {
    if frames.len() == 0 {
        None
    } else {
        match t {
            JsonToken::JsKey(_) => if frames.last() == Context::Object && prev != TokenType::Key {
                Some((frames, TokenType::Key))
            } else {
                None
            },
            JsonToken::StartObject => if at_value(frames, prev) {
                Some((frames.push(Context::Object), TokenType::ObjectStart))
            } else {
                None
            },
            JsonToken::StartArray => if at_value(frames, prev) {
                Some((frames.push(Context::Array), TokenType::ArrayStart))
            } else {
                None
            },
            JsonToken::EndObject => if frames.last() == Context::Object && prev != TokenType::Key {
                Some((frames.drop_last(), TokenType::Value))
            } else {
                None
            },
            JsonToken::EndArray => if frames.last() == Context::Array {
                Some((frames.drop_last(), TokenType::Value))
            } else {
                None
            },
            _ => if at_value(frames, prev) { Some((frames, TokenType::Value)) } else { None },
        }
    }
}

/// The moves of `tok_next` are those of the tokenizer: a token that `decode`
/// yields from a settled state is one `tok_next` admits, with the same new
/// state.
pub proof fn lemma_decode_moves(frames: Seq<Context>, prev: TokenType, b: Seq<u8>, eos: bool, t: JsonToken)
    requires
        settled(frames, prev),
        decode_outcome(frames, prev, b, eos) matches Step::Emit(lex, _, _, _) && token_is(t, lex, b),
    ensures
        decode_outcome(frames, prev, b, eos) matches Step::Emit(_, _, f2, pv2) && tok_next(frames, prev, t)
            == Some((f2, pv2)),
{
    lemma_decode_shape(frames, prev, b, eos);
}

/// Whether the tokenizer yields the tokens `ts` one after the other from
/// `(frames, prev)`, and stops once its outermost frame is closed.
pub open spec fn accepts(frames: Seq<Context>, prev: TokenType, ts: Seq<JsonToken>) -> bool
    decreases ts.len(),
{
    ts.len() == 0 || match tok_next(frames, prev, ts[0]) {
        Some((f2, pv2)) => if f2.len() == 0 { ts.len() == 1 } else { accepts(f2, pv2, ts.drop_first()) },
        None => false,
    }
}

/// Whether the events nest from the stack of open containers `stack`
/// (paths of their start events): an opening event or a scalar stands one
/// step below the innermost open container, an opening event opens a
/// container at its path, and a closing event has the path of the innermost
/// open container, which it closes.
pub open spec fn nest(stack: Seq<Seq<ValuePosition>>, events: Seq<(Seq<ValuePosition>, Value)>) -> bool
    decreases events.len(),
{
    if events.len() == 0 {
        true
    } else {
        let (p, v) = events[0];
        if v is EndObject || v is EndArray {
            stack.len() > 0 && p == stack.last() && nest(stack.drop_last(), events.drop_first())
        } else {
            &&& stack.len() > 0
            &&& p.len() == stack.last().len() + 1
            &&& p.drop_last() == stack.last()
            &&& if v is StartObject || v is StartArray {
                nest(stack.push(p), events.drop_first())
            } else {
                nest(stack, events.drop_first())
            }
        }
    }
}

/// The paths of the open containers whose events are sent.
pub open spec fn sent_open(opened: Seq<Seq<ValuePosition>>) -> Seq<Seq<ValuePosition>> {
    opened.filter(|p: Seq<ValuePosition>| odata_free(p))
}

proof fn lemma_sent_open_push(opened: Seq<Seq<ValuePosition>>, p: Seq<ValuePosition>)
    ensures
        sent_open(opened.push(p)) == if odata_free(p) { sent_open(opened).push(p) } else { sent_open(opened) },
{
    reveal(Seq::filter);
    assert(opened.push(p).drop_last() =~= opened);
}

proof fn lemma_free_parent(p: Seq<ValuePosition>)
    requires
        p.len() > 0,
        odata_free(p),
    ensures
        odata_free(p.drop_last()),
{
    assert forall|i: int| 0 <= i < p.drop_last().len() implies !(#[trigger] p.drop_last()[i] matches ValuePosition::Key(k)
        && is_odata_text(k@)) by {
        assert(p.drop_last()[i] == p[i]);
    }
}

proof fn lemma_nest_one(stack: Seq<Seq<ValuePosition>>, e: (Seq<ValuePosition>, Value), rest: Seq<(Seq<ValuePosition>, Value)>)
    ensures
        nest(stack, seq![e] + rest) == {
            let (p, v) = e;
            if v is EndObject || v is EndArray {
                stack.len() > 0 && p == stack.last() && nest(stack.drop_last(), rest)
            } else {
                &&& stack.len() > 0
                &&& p.len() == stack.last().len() + 1
                &&& p.drop_last() == stack.last()
                &&& if v is StartObject || v is StartArray { nest(stack.push(p), rest) } else { nest(stack, rest) }
            }
        },
{
    assert((seq![e] + rest)[0] == e);
    assert((seq![e] + rest).drop_first() =~= rest);
}

/// How one event (if any) moves the stack of sent open containers from
/// `before` to `after`, as `nest` asks.
pub open spec fn sent_step(
    before: Seq<Seq<ValuePosition>>,
    after: Seq<Seq<ValuePosition>>,
    event: Option<(Seq<ValuePosition>, Value)>,
) -> bool {
    match event {
        None => after == before,
        Some((ep, v)) => if v is EndObject || v is EndArray {
            before.len() > 0 && ep == before.last() && after == before.drop_last()
        } else {
            &&& before.len() > 0
            &&& ep.len() == before.last().len() + 1
            &&& ep.drop_last() == before.last()
            &&& after == if v is StartObject || v is StartArray { before.push(ep) } else { before }
        },
    }
}

proof fn lemma_sent_below(opened: Seq<Seq<ValuePosition>>, ep: Seq<ValuePosition>)
    requires
        opened.len() > 0,
        ep.len() == opened.last().len() + 1,
        ep.drop_last() == opened.last(),
        odata_free(ep),
    ensures
        sent_open(opened).len() > 0,
        sent_open(opened).last() == opened.last(),
{
    lemma_free_parent(ep);
    lemma_sent_open_push(opened.drop_last(), opened.last());
    assert(opened =~= opened.drop_last().push(opened.last()));
}

proof fn lemma_step_open(
    frames: Seq<Context>,
    prev: TokenType,
    opened: Seq<Seq<ValuePosition>>,
    path: Seq<ValuePosition>,
    index: Option<usize>,
    t: JsonToken,
    f2: Seq<Context>,
    pv2: TokenType,
)
    requires
        aligned(frames, prev, opened, path, index),
        tok_next(frames, prev, t) == Some((f2, pv2)),
        t is StartObject || t is StartArray,
    ensures
        ({
            let p = produce(path, index, t);
            let op2 = reopened(opened, t, path, index);
            &&& !(p.done || p.overflow)
            &&& f2.len() > 0
            &&& aligned(f2, pv2, op2, p.path, p.index)
            &&& sent_step(sent_open(opened), sent_open(op2), p.event)
        }),
{
    lemma_nest_open(frames, prev, opened, path, index, t, f2, pv2);
    let q = with_index(path, index);
    lemma_sent_open_push(opened, q);
    if let Some(i) = index {
        assert(path.push(ValuePosition::Index(i)).drop_last() =~= path);
    }
    if odata_free(q) {
        lemma_sent_below(opened, q);
    }
}

proof fn lemma_step_close(
    frames: Seq<Context>,
    prev: TokenType,
    opened: Seq<Seq<ValuePosition>>,
    path: Seq<ValuePosition>,
    index: Option<usize>,
    t: JsonToken,
    f2: Seq<Context>,
    pv2: TokenType,
)
    requires
        aligned(frames, prev, opened, path, index),
        tok_next(frames, prev, t) == Some((f2, pv2)),
        t is EndObject || t is EndArray,
        !produce(path, index, t).overflow,
    ensures
        ({
            let p = produce(path, index, t);
            let op2 = reopened(opened, t, path, index);
            &&& f2.len() == 0 ==> p.done
            &&& f2.len() > 0 ==> !p.done && aligned(f2, pv2, op2, p.path, p.index)
                && sent_step(sent_open(opened), sent_open(op2), p.event)
        }),
{
    lemma_nest_close(frames, prev, opened, path, index, t, f2, pv2);
    assert(opened =~= opened.drop_last().push(opened.last()));
    lemma_sent_open_push(opened.drop_last(), opened.last());
    let op2 = reopened(opened, t, path, index);
    assert(op2 == opened.drop_last());
    if f2.len() > 0 {
        assert(path == opened.last());
        let so = sent_open(opened);
        if odata_free(path) {
            assert(so == sent_open(op2).push(path));
            assert(so.drop_last() =~= sent_open(op2));
        } else {
            assert(so == sent_open(op2));
        }
    }
}

proof fn lemma_step_member(
    frames: Seq<Context>,
    prev: TokenType,
    opened: Seq<Seq<ValuePosition>>,
    path: Seq<ValuePosition>,
    index: Option<usize>,
    t: JsonToken,
    f2: Seq<Context>,
    pv2: TokenType,
)
    requires
        aligned(frames, prev, opened, path, index),
        tok_next(frames, prev, t) == Some((f2, pv2)),
        !(t is StartObject || t is StartArray || t is EndObject || t is EndArray),
        !produce(path, index, t).overflow,
    ensures
        ({
            let p = produce(path, index, t);
            let op2 = reopened(opened, t, path, index);
            &&& !p.done
            &&& f2.len() > 0
            &&& aligned(f2, pv2, op2, p.path, p.index)
            &&& sent_step(sent_open(opened), sent_open(op2), p.event)
        }),
{
    lemma_nest_member(frames, prev, opened, path, index, t, f2, pv2);
    if let Some(i) = index {
        assert(path.push(ValuePosition::Index(i)).drop_last() =~= path);
    }
    let q = with_index(path, index);
    if !(t is JsKey) && odata_free(q) {
        lemma_sent_below(opened, q);
    }
}

/// Path monotonicity over a whole walk: for every sequence of tokens that
/// the tokenizer yields from a state aligned with the producer's, the
/// events the producer sends nest (see `nest`) from the open containers
/// whose events are sent. So the events form a depth-first traversal: each
/// value's event stands one step (a key or an index) below the innermost
/// open container, and every `End*` event has the path of its matching
/// `Start*`.
pub proof fn lemma_events_nest(
    frames: Seq<Context>,
    prev: TokenType,
    opened: Seq<Seq<ValuePosition>>,
    path: Seq<ValuePosition>,
    index: Option<usize>,
    ts: Seq<JsonToken>,
)
    requires
        aligned(frames, prev, opened, path, index),
        accepts(frames, prev, ts),
    ensures
        nest(sent_open(opened), run(path, index, ts).events),
    decreases ts.len(),
{
    if ts.len() > 0 {
        let t = ts[0];
        let (f2, pv2) = tok_next(frames, prev, t)->Some_0;
        let p = produce(path, index, t);
        if !(p.done || p.overflow) {
            let op2 = reopened(opened, t, path, index);
            if t is StartObject || t is StartArray {
                lemma_step_open(frames, prev, opened, path, index, t, f2, pv2);
            } else if t is EndObject || t is EndArray {
                lemma_step_close(frames, prev, opened, path, index, t, f2, pv2);
            } else {
                lemma_step_member(frames, prev, opened, path, index, t, f2, pv2);
            }
            lemma_events_nest(f2, pv2, op2, p.path, p.index, ts.drop_first());
            let r = run(p.path, p.index, ts.drop_first());
            match p.event {
                Some(e) => {
                    lemma_nest_one(sent_open(opened), e, r.events);
                },
                None => {
                    assert(event_seq(p.event) + r.events =~= r.events);
                },
            }
        }
    }
}


/// An open container: the path of its start event, and for an array the
/// index its next element will have (`None` for an object).
pub type OpenEntry = (Seq<ValuePosition>, Option<nat>);

/// The open containers of an aligned walk with their next indices: an
/// array's next index is the producer's index for the innermost one, and
/// one past the index of the open element for the others.
pub open spec fn open_entries(frames: Seq<Context>, opened: Seq<Seq<ValuePosition>>, index: Option<usize>) -> Seq<OpenEntry> {
    Seq::new(opened.len(), |k: int| (opened[k], if frames[k] == Context::Array {
        Some(if k == opened.len() - 1 { index->Some_0 as nat } else { opened[k + 1].last()->Index_0 as nat + 1 })
    } else {
        None
    }))
}

/// The entries whose events are sent.
pub open spec fn sent_entries(es: Seq<OpenEntry>) -> Seq<OpenEntry> {
    es.filter(|e: OpenEntry| odata_free(e.0))
}

/// The stack after a child of the innermost container started: an array's
/// next index moves on by one.
pub open spec fn bump(es: Seq<OpenEntry>) -> Seq<OpenEntry> {
    es.drop_last().push((es.last().0, match es.last().1 {
        Some(n) => Some(n + 1),
        None => None,
    }))
}

/// The entry that an opening event of value `v` at `p` pushes.
pub open spec fn entry_of(p: Seq<ValuePosition>, v: Value) -> OpenEntry {
    (p, if v is StartArray { Some(0nat) } else { None })
}

/// Whether the events nest from `stack` with the right steps: as `nest`,
/// and besides, a value inside an object stands under a key, a value inside
/// an array under the index of the array's next element (which then moves
/// on), and a closing event closes a container of its own kind.
pub open spec fn nest_steps(stack: Seq<OpenEntry>, events: Seq<(Seq<ValuePosition>, Value)>) -> bool
    decreases events.len(),
{
    if events.len() == 0 {
        true
    } else {
        let (p, v) = events[0];
        if v is EndObject || v is EndArray {
            &&& stack.len() > 0
            &&& p == stack.last().0
            &&& (v is EndArray <==> stack.last().1 is Some)
            &&& nest_steps(stack.drop_last(), events.drop_first())
        } else {
            &&& stack.len() > 0
            &&& p.len() == stack.last().0.len() + 1
            &&& p.drop_last() == stack.last().0
            &&& match stack.last().1 {
                Some(n) => p.last() matches ValuePosition::Index(j) && j as nat == n,
                None => p.last() is Key,
            }
            &&& if v is StartObject || v is StartArray {
                nest_steps(bump(stack).push(entry_of(p, v)), events.drop_first())
            } else {
                nest_steps(bump(stack), events.drop_first())
            }
        }
    }
}

/// How one event (if any) moves the sent entries from `before` to `after`,
/// as `nest_steps` asks.
pub open spec fn steps_step(before: Seq<OpenEntry>, after: Seq<OpenEntry>, event: Option<(Seq<ValuePosition>, Value)>) -> bool {
    match event {
        None => after == before,
        Some((ep, v)) => if v is EndObject || v is EndArray {
            &&& before.len() > 0
            &&& ep == before.last().0
            &&& (v is EndArray <==> before.last().1 is Some)
            &&& after == before.drop_last()
        } else {
            &&& before.len() > 0
            &&& ep.len() == before.last().0.len() + 1
            &&& ep.drop_last() == before.last().0
            &&& match before.last().1 {
                Some(n) => ep.last() matches ValuePosition::Index(j) && j as nat == n,
                None => ep.last() is Key,
            }
            &&& after == if v is StartObject || v is StartArray { bump(before).push(entry_of(ep, v)) } else { bump(before) }
        },
    }
}

proof fn lemma_sent_entries_push(es: Seq<OpenEntry>, e: OpenEntry)
    ensures
        sent_entries(es.push(e)) == if odata_free(e.0) { sent_entries(es).push(e) } else { sent_entries(es) },
{
    reveal(Seq::filter);
    assert(es.push(e).drop_last() =~= es);
}

proof fn lemma_free_push(p: Seq<ValuePosition>, x: ValuePosition)
    ensures
        odata_free(p.push(x)) == (odata_free(p) && !(x matches ValuePosition::Key(k) && is_odata_text(k@))),
{
    let q = p.push(x);
    if odata_free(q) {
        assert forall|i: int| 0 <= i < p.len() implies !(#[trigger] p[i] matches ValuePosition::Key(k)
            && is_odata_text(k@)) by {
            assert(q[i] == p[i]);
        }
        assert(q[p.len() as int] == x);
    }
    if odata_free(p) && !(x matches ValuePosition::Key(k) && is_odata_text(k@)) {
        assert forall|i: int| 0 <= i < q.len() implies !(#[trigger] q[i] matches ValuePosition::Key(k)
            && is_odata_text(k@)) by {
            if i < p.len() {
                assert(q[i] == p[i]);
            }
        }
    }
}

/// Where the innermost entry changes in place (its path kept), the sent
/// entries change with it if it is sent, and not otherwise.
proof fn lemma_sent_last_replaced(es: Seq<OpenEntry>, x: OpenEntry)
    requires
        es.len() > 0,
        x.0 == es.last().0,
    ensures
        sent_entries(es.drop_last().push(x)) == if odata_free(x.0) {
            sent_entries(es).drop_last().push(x)
        } else {
            sent_entries(es)
        },
        odata_free(x.0) ==> sent_entries(es).len() > 0 && sent_entries(es).last() == es.last(),
{
    lemma_sent_entries_push(es.drop_last(), x);
    lemma_sent_entries_push(es.drop_last(), es.last());
    assert(es =~= es.drop_last().push(es.last()));
    if odata_free(x.0) {
        assert(sent_entries(es).drop_last() =~= sent_entries(es.drop_last()));
    }
}


proof fn lemma_bump_same(es: Seq<OpenEntry>)
    requires
        es.len() > 0,
        es.last().1 is None,
    ensures
        bump(es) == es,
{
    assert(bump(es) =~= es);
}

proof fn lemma_entries_member(
    frames: Seq<Context>,
    prev: TokenType,
    opened: Seq<Seq<ValuePosition>>,
    path: Seq<ValuePosition>,
    index: Option<usize>,
    t: JsonToken,
    f2: Seq<Context>,
    pv2: TokenType,
)
    requires
        aligned(frames, prev, opened, path, index),
        tok_next(frames, prev, t) == Some((f2, pv2)),
        !(t is StartObject || t is StartArray || t is EndObject || t is EndArray),
        !produce(path, index, t).overflow,
    ensures
        ({
            let p = produce(path, index, t);
            steps_step(sent_entries(open_entries(frames, opened, index)),
                sent_entries(open_entries(f2, reopened(opened, t, path, index), p.index)), p.event)
        }),
{
    let p = produce(path, index, t);
    let e = open_entries(frames, opened, index);
    let n = opened.len();
    let top = opened.last();
    if t is JsKey {
    } else if frames.last() == Context::Array {
        let i = index->Some_0;
        let q = path.push(ValuePosition::Index(i));
        assert(q.drop_last() =~= path);
        let x: OpenEntry = (top, Some(i as nat + 1));
        assert(p.index == Some((i + 1) as usize));
        assert(open_entries(f2, opened, p.index) =~= e.drop_last().push(x));
        lemma_free_push(top, ValuePosition::Index(i));
        lemma_sent_last_replaced(e, x);
        if odata_free(q) {
            assert(e.last() == (top, Some(i as nat)));
        }
    } else {
        assert(open_entries(f2, opened, p.index) =~= e);
        if odata_free(path) {
            lemma_free_parent(path);
            lemma_sent_last_replaced(e, e.last());
            assert(e =~= e.drop_last().push(e.last()));
            lemma_bump_same(sent_entries(e));
        }
    }
}

proof fn lemma_entries_open(
    frames: Seq<Context>,
    prev: TokenType,
    opened: Seq<Seq<ValuePosition>>,
    path: Seq<ValuePosition>,
    index: Option<usize>,
    t: JsonToken,
    f2: Seq<Context>,
    pv2: TokenType,
)
    requires
        aligned(frames, prev, opened, path, index),
        tok_next(frames, prev, t) == Some((f2, pv2)),
        t is StartObject || t is StartArray,
    ensures
        ({
            let p = produce(path, index, t);
            steps_step(sent_entries(open_entries(frames, opened, index)),
                sent_entries(open_entries(f2, reopened(opened, t, path, index), p.index)), p.event)
        }),
{
    let p = produce(path, index, t);
    let e = open_entries(frames, opened, index);
    let n = opened.len();
    let top = opened.last();
    let q = with_index(path, index);
    let op2 = reopened(opened, t, path, index);
    let v = value_of(t);
    let x: OpenEntry = (top, match e.last().1 { Some(m) => Some(m + 1), None => None });
    if let Some(i) = index {
        assert(q.drop_last() =~= path);
        lemma_free_push(top, ValuePosition::Index(i));
    } else {
        assert(q == path);
        if odata_free(q) {
            lemma_free_parent(q);
        } else {
            assert(path =~= top.push(path.last()));
            lemma_free_push(top, path.last());
        }
    }
    assert(open_entries(f2, op2, p.index) =~= bump(e).push(entry_of(q, v)));
    lemma_sent_entries_push(bump(e), entry_of(q, v));
    lemma_sent_last_replaced(e, x);
    if odata_free(q) {
        assert(odata_free(top));
    } else if odata_free(top) {
        assert(e.last().1 is None);
        assert(x == e.last());
        assert(e =~= e.drop_last().push(e.last()));
        assert(sent_entries(e).drop_last().push(x) =~= sent_entries(e));
    }
}

proof fn lemma_entries_close(
    frames: Seq<Context>,
    prev: TokenType,
    opened: Seq<Seq<ValuePosition>>,
    path: Seq<ValuePosition>,
    index: Option<usize>,
    t: JsonToken,
    f2: Seq<Context>,
    pv2: TokenType,
)
    requires
        aligned(frames, prev, opened, path, index),
        tok_next(frames, prev, t) == Some((f2, pv2)),
        t is EndObject || t is EndArray,
        !produce(path, index, t).overflow,
        f2.len() > 0,
    ensures
        ({
            let p = produce(path, index, t);
            steps_step(sent_entries(open_entries(frames, opened, index)),
                sent_entries(open_entries(f2, reopened(opened, t, path, index), p.index)), p.event)
        }),
{
    let p = produce(path, index, t);
    let e = open_entries(frames, opened, index);
    let n = opened.len();
    let top = opened.last();
    assert(path == top);
    assert(opened[n - 1].len() == opened[n - 2].len() + 1);
    assert(step_under(frames[n - 2], opened[n - 1].last()));
    assert(open_entries(f2, reopened(opened, t, path, index), p.index) =~= e.drop_last());
    lemma_sent_entries_push(e.drop_last(), e.last());
    assert(e =~= e.drop_last().push(e.last()));
    if odata_free(top) {
        assert(sent_entries(e).drop_last() =~= sent_entries(e.drop_last()));
    }
}

proof fn lemma_nest_steps_one(stack: Seq<OpenEntry>, e: (Seq<ValuePosition>, Value), after: Seq<OpenEntry>,
    rest: Seq<(Seq<ValuePosition>, Value)>)
    requires
        steps_step(stack, after, Some(e)),
        nest_steps(after, rest),
    ensures
        nest_steps(stack, seq![e] + rest),
{
    assert((seq![e] + rest)[0] == e);
    assert((seq![e] + rest).drop_first() =~= rest);
}

/// Path steps over a whole walk: for every sequence of tokens that the
/// tokenizer yields from a state aligned with the producer's, the events
/// the producer sends satisfy `nest_steps` from the open containers whose
/// events are sent: every value's event stands under the innermost open
/// container, one key below it in an object and, in an array, one index
/// below it equal to the number of elements the array had before; every
/// `End*` event has the path of its matching `Start*` and closes a
/// container of its own kind.
pub proof fn lemma_events_steps(
    frames: Seq<Context>,
    prev: TokenType,
    opened: Seq<Seq<ValuePosition>>,
    path: Seq<ValuePosition>,
    index: Option<usize>,
    ts: Seq<JsonToken>,
)
    requires
        aligned(frames, prev, opened, path, index),
        accepts(frames, prev, ts),
    ensures
        nest_steps(sent_entries(open_entries(frames, opened, index)), run(path, index, ts).events),
    decreases ts.len(),
{
    if ts.len() > 0 {
        let t = ts[0];
        let (f2, pv2) = tok_next(frames, prev, t)->Some_0;
        let p = produce(path, index, t);
        if !(p.done || p.overflow) {
            let op2 = reopened(opened, t, path, index);
            if t is StartObject || t is StartArray {
                lemma_step_open(frames, prev, opened, path, index, t, f2, pv2);
                lemma_entries_open(frames, prev, opened, path, index, t, f2, pv2);
            } else if t is EndObject || t is EndArray {
                lemma_step_close(frames, prev, opened, path, index, t, f2, pv2);
                lemma_entries_close(frames, prev, opened, path, index, t, f2, pv2);
            } else {
                lemma_step_member(frames, prev, opened, path, index, t, f2, pv2);
                lemma_entries_member(frames, prev, opened, path, index, t, f2, pv2);
            }
            lemma_events_steps(f2, pv2, op2, p.path, p.index, ts.drop_first());
            let r = run(p.path, p.index, ts.drop_first());
            let after = sent_entries(open_entries(f2, op2, p.index));
            match p.event {
                Some(e) => {
                    lemma_nest_steps_one(sent_entries(open_entries(frames, opened, index)), e, after, r.events);
                },
                None => {
                    assert(event_seq(p.event) + r.events =~= r.events);
                },
            }
        }
    }
}

} // verus!
