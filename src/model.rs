//! Queries, locations inside a JSON document, and the events of the stream.
use vstd::prelude::*;

verus! {

/// The character of a decimal digit `d < 10`.
pub open spec fn digit_char(d: nat) -> char {
    if d == 0 { '0' } else if d == 1 { '1' } else if d == 2 { '2' } else if d == 3 { '3' }
    else if d == 4 { '4' } else if d == 5 { '5' } else if d == 6 { '6' } else if d == 7 { '7' }
    else if d == 8 { '8' } else { '9' }
}

/// Decimal notation of `n`, without sign or leading zeros.
pub open spec fn decimal_text(n: nat) -> Seq<char>
    decreases n,
{
    if n < 10 { seq![digit_char(n)] } else { decimal_text(n / 10) + seq![digit_char(n % 10)] }
}

fn digit_str(d: usize) -> (r: &'static str)
    requires
        d < 10,
    ensures
        r@ == seq![digit_char(d as nat)],
{
    proof {
        reveal_strlit("0"); reveal_strlit("1"); reveal_strlit("2"); reveal_strlit("3");
        reveal_strlit("4"); reveal_strlit("5"); reveal_strlit("6"); reveal_strlit("7");
        reveal_strlit("8"); reveal_strlit("9");
    }
    if d == 0 { "0" } else if d == 1 { "1" } else if d == 2 { "2" } else if d == 3 { "3" }
    else if d == 4 { "4" } else if d == 5 { "5" } else if d == 6 { "6" } else if d == 7 { "7" }
    else if d == 8 { "8" } else { "9" }
}

/// Decimal notation of `n`.
pub fn decimal_string(n: usize) -> (r: String)
    ensures
        r@ == decimal_text(n as nat),
    decreases n,
{
    if n < 10 {
        String::from_str(digit_str(n))
    } else {
        let mut s = decimal_string(n / 10);
        s.append(digit_str(n % 10));
        s
    }
}


/// Options of a query on an entity set.
#[derive(Debug, Clone)]
pub struct EntitySetQuery {
    pub entityset_url: String,
    pub select: Option<String>,
    pub filters: Option<String>,
    pub order_by: Option<String>,
    pub username: Option<String>,
    pub password: Option<String>,
}

impl EntitySetQuery {
    pub fn new(entityset_url: String) -> (r: EntitySetQuery)
        ensures
            r.entityset_url == entityset_url,
            r.select is None,
            r.filters is None,
            r.order_by is None,
            r.username is None,
            r.password is None,
    {
        EntitySetQuery {
            entityset_url,
            select: None,
            filters: None,
            order_by: None,
            username: None,
            password: None,
        }
    }

    pub open spec fn spec_has_options(&self) -> bool {
        self.select is Some || self.filters is Some || self.order_by is Some
    }

    /// Whether any of `$filter`, `$select` or `$orderby` is set.
    pub fn has_options(&self) -> (r: bool)
        ensures
            r == self.spec_has_options(),
    {
        self.select.is_some() || self.filters.is_some() || self.order_by.is_some()
    }
}

/// A query on a single entity.
#[derive(Debug, Clone)]
pub struct EntityIndividualQuery {
    pub entity_url: String,
    pub username: Option<String>,
    pub password: Option<String>,
}

impl EntityIndividualQuery {
    pub fn new(entity_url: String) -> (r: EntityIndividualQuery)
        ensures
            r.entity_url == entity_url,
            r.username is None,
            r.password is None,
    {
        EntityIndividualQuery { entity_url, username: None, password: None }
    }
}

/// A call of a function whose result is a collection under `value`.
#[derive(Debug, Clone)]
pub struct FunctionQuery {
    pub function_url: String,
    pub username: Option<String>,
    pub password: Option<String>,
}

impl FunctionQuery {
    pub fn new(function_url: String) -> (r: FunctionQuery)
        ensures
            r.function_url == function_url,
            r.username is None,
            r.password is None,
    {
        FunctionQuery { function_url, username: None, password: None }
    }
}

/// The character of a hexadecimal digit `d < 16`, lower case.
pub open spec fn hex_char(d: nat) -> char {
    if d < 10 { digit_char(d) } else if d == 10 { 'a' } else if d == 11 { 'b' } else if d == 12 { 'c' }
    else if d == 13 { 'd' } else if d == 14 { 'e' } else { 'f' }
}

/// Lower-case hexadecimal notation of `n`, without prefix or leading zeros.
pub open spec fn hex_text(n: nat) -> Seq<char>
    decreases n,
{
    if n < 16 { seq![hex_char(n)] } else { hex_text(n / 16) + seq![hex_char(n % 16)] }
}

fn hex_digit_str(d: u32) -> (r: &'static str)
    requires
        d < 16,
    ensures
        r@ == seq![hex_char(d as nat)],
{
    if d < 10 {
        return digit_str(d as usize);
    }
    proof {
        reveal_strlit("a"); reveal_strlit("b"); reveal_strlit("c");
        reveal_strlit("d"); reveal_strlit("e"); reveal_strlit("f");
    }
    if d == 10 { "a" } else if d == 11 { "b" } else if d == 12 { "c" } else if d == 13 { "d" }
    else if d == 14 { "e" } else { "f" }
}

/// Lower-case hexadecimal notation of `n`.
pub fn hex_string(n: u32) -> (r: String)
    ensures
        r@ == hex_text(n as nat),
    decreases n,
{
    if n < 16 {
        String::from_str(hex_digit_str(n))
    } else {
        let mut s = hex_string(n / 16);
        s.append(hex_digit_str(n % 16));
        s
    }
}

/// One step of a path: a key of an object or an index into an array.
#[derive(Debug, Clone, PartialEq, Eq)]
pub enum ValuePosition {
    Key(String),
    Index(usize),
}

impl ValuePosition {
    /// A copy of this step.
    pub fn duplicate(&self) -> (r: ValuePosition)
        ensures
            r == *self,
    {
        match self {
            ValuePosition::Key(k) => ValuePosition::Key(k.clone()),
            ValuePosition::Index(i) => ValuePosition::Index(*i),
        }
    }
}

/// The text of one step; `first` tells whether it opens the path.
pub open spec fn step_text(p: ValuePosition, first: bool) -> Seq<char> {
    match p {
        ValuePosition::Key(k) => if first { k@ } else { seq!['.'] + k@ },
        ValuePosition::Index(i) => seq!['['] + decimal_text(i as nat) + seq![']'],
    }
}

/// Keys separated by `.`, indices as `[n]`, no leading separator.
pub open spec fn path_text(steps: Seq<ValuePosition>) -> Seq<char>
    decreases steps.len(),
{
    if steps.len() == 0 {
        seq![]
    } else {
        path_text(steps.drop_last()) + step_text(steps.last(), steps.len() == 1)
    }
}

/// Whether a step is an object key.
pub open spec fn is_key_step(p: ValuePosition) -> bool {
    p is Key
}

/// A location inside a JSON document: the sequence of steps from the root.
#[derive(Debug, Clone, PartialEq, Eq)]
pub struct ValuePath {
    steps: Vec<ValuePosition>,
}

impl View for ValuePath {
    type V = Seq<ValuePosition>;

    closed spec fn view(&self) -> Seq<ValuePosition> {
        self.steps@
    }
}

impl ValuePath {
    pub fn new() -> (r: ValuePath)
        ensures
            r@ == Seq::<ValuePosition>::empty(),
    {
        ValuePath { steps: Vec::new() }
    }

    /// A path with the given steps.
    pub fn from_steps(steps: Vec<ValuePosition>) -> (r: ValuePath)
        ensures
            r@ == steps@,
    {
        ValuePath { steps }
    }

    /// A copy of this path that shares no storage with it.
    pub fn duplicate(&self) -> (r: ValuePath)
        ensures
            r@ == self@,
    {
        let mut steps: Vec<ValuePosition> = Vec::new();
        let mut i: usize = 0;
        while i < self.steps.len()
            invariant
                i <= self.steps@.len(),
                steps@ == self.steps@.subrange(0, i as int),
            decreases self.steps@.len() - i,
        {
            steps.push(self.steps[i].duplicate());
            i = i + 1;
        }
        assert(steps@ == self.steps@);
        ValuePath { steps }
    }

    /// Renders the steps: keys separated by `.`, indices as `[n]`.
    pub fn stringify_path(path: &Vec<ValuePosition>) -> (r: String)
        ensures
            r@ == path_text(path@),
    {
        let mut out = String::new();
        let mut i: usize = 0;
        while i < path.len()
            invariant
                i <= path@.len(),
                out@ == path_text(path@.subrange(0, i as int)),
            decreases path@.len() - i,
        {
            let ghost prefix = path@.subrange(0, i as int);
            let ghost next = path@.subrange(0, i + 1);
            assert(next.drop_last() == prefix);
            assert(next.last() == path@[i as int]);
            let ghost before = out@;
            proof { reveal_strlit("."); reveal_strlit("["); reveal_strlit("]"); }
            match &path[i] {
                ValuePosition::Key(k) => {
                    if i > 0 {
                        out.append(".");
                    }
                    out.append(k.as_str());
                },
                ValuePosition::Index(n) => {
                    out.append("[");
                    let digits = decimal_string(*n);
                    out.append(digits.as_str());
                    out.append("]");
                },
            }
            assert(out@ =~= before + step_text(path@[i as int], i == 0));
            i = i + 1;
        }
        assert(path@.subrange(0, path@.len() as int) == path@);
        out
    }

    pub fn get_path_string(&self) -> (r: String)
        ensures
            r@ == path_text(self@),
    {
        Self::stringify_path(&self.steps)
    }

    /// The path with its index steps left out.
    pub fn build_key_path(&self) -> (r: ValuePath)
        ensures
            r@ == self@.filter(|p: ValuePosition| is_key_step(p)),
    {
        let mut steps: Vec<ValuePosition> = Vec::new();
        let mut i: usize = 0;
        while i < self.steps.len()
            invariant
                i <= self.steps@.len(),
                steps@ == self.steps@.subrange(0, i as int).filter(|p: ValuePosition| is_key_step(p)),
            decreases self.steps@.len() - i,
        {
            proof {
                let s = self.steps@.subrange(0, i + 1);
                assert(s.drop_last() == self.steps@.subrange(0, i as int));
                reveal(Seq::filter);
            }
            if let ValuePosition::Key(_) = &self.steps[i] {
                steps.push(self.steps[i].duplicate());
            }
            i = i + 1;
        }
        assert(self.steps@.subrange(0, self.steps@.len() as int) == self.steps@);
        ValuePath { steps }
    }

    /// The last step, if any.
    pub fn top_most(&self) -> (r: Option<ValuePosition>)
        ensures
            self@.len() == 0 ==> r is None,
            self@.len() > 0 ==> r == Some(self@.last()),
    {
        if self.steps.len() == 0 {
            None
        } else {
            Some(self.steps[self.steps.len() - 1].duplicate())
        }
    }

    pub fn push(&mut self, next_position: ValuePosition)
        ensures
            final(self)@ == old(self)@.push(next_position),
    {
        self.steps.push(next_position);
    }

    pub fn pop(&mut self) -> (r: Option<ValuePosition>)
        ensures
            old(self)@.len() == 0 ==> r is None && final(self)@ == old(self)@,
            old(self)@.len() > 0 ==> r == Some(old(self)@.last()) && final(self)@ == old(self)@.drop_last(),
    {
        self.steps.pop()
    }

    pub fn is_empty(&self) -> (r: bool)
        ensures
            r == (self@.len() == 0),
    {
        self.steps.len() == 0
    }

    /// The number of steps.
    pub fn current_level(&self) -> (r: usize)
        ensures
            r == self@.len(),
    {
        self.steps.len()
    }

    /// The path without its last step, or `None` for the empty path.
    pub fn parent(&self) -> (r: Option<ValuePath>)
        ensures
            self@.len() == 0 ==> r is None,
            self@.len() > 0 ==> r is Some && r->Some_0@ == self@.drop_last(),
    {
        if self.steps.len() == 0 {
            return None;
        }
        let mut p = self.duplicate();
        p.steps.pop();
        Some(p)
    }

    /// The steps, from the root.
    pub fn iter(&self) -> (r: std::slice::Iter<'_, ValuePosition>)
        ensures
            vstd::std_specs::slice::into_iter_elts(r) == self@,
    {
        let s = self.steps.as_slice();
        let r = s.iter();
        proof {
            broadcast use vstd::std_specs::slice::axiom_spec_slice_iter;
            assert(s@.as_ref().unref() =~= s@);
        }
        r
    }

    /// The step at `i`.
    pub fn step(&self, i: usize) -> (r: &ValuePosition)
        requires
            i < self@.len(),
        ensures
            *r == self@[i as int],
    {
        &self.steps[i]
    }

    pub fn reset(&mut self)
        ensures
            final(self)@ == Seq::<ValuePosition>::empty(),
    {
        self.steps.clear();
    }
}

/// A problem met while reading a response.
#[derive(Debug, Clone, PartialEq, Eq)]
pub struct MyError {
    pub message: String,
}

impl MyError {
    /// An error with the given message.
    pub fn new(message: String) -> (r: MyError)
        ensures
            r.message == message,
    {
        MyError { message }
    }

    /// The message of the error.
    pub fn to_string(&self) -> (r: String)
        ensures
            r@ == self.message@,
    {
        self.message.clone()
    }
}

/// The content at one location of the document.
#[derive(Debug, Clone, PartialEq, Eq)]
pub enum Value {
    /// `{`
    StartObject,
    /// `}`
    EndObject,
    /// `[`
    StartArray,
    /// `]`
    EndArray,
    /// `null`
    Null,
    /// `true` or `false`
    Boolean(bool),
    /// A number as its lexeme, unparsed.
    Number(String),
    /// A string as it stands between its quotes, escapes kept.
    String(String),
}

impl Value {
    pub fn duplicate(&self) -> (r: Value)
        ensures
            r == *self,
    {
        match self {
            Value::StartObject => Value::StartObject,
            Value::EndObject => Value::EndObject,
            Value::StartArray => Value::StartArray,
            Value::EndArray => Value::EndArray,
            Value::Null => Value::Null,
            Value::Boolean(b) => Value::Boolean(*b),
            Value::Number(s) => Value::Number(s.clone()),
            Value::String(s) => Value::String(s.clone()),
        }
    }
}

/// An event of the stream: a value and the path where it stands.
#[derive(Debug, Clone, PartialEq, Eq)]
pub struct Token {
    pub path: ValuePath,
    /// the actual content at this path
    pub value: Value,
}

} // verus!
