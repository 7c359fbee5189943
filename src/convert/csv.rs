//! Events to delimited text: one line per record, fields separated by `;`,
//! lines ended by `\r\n`. Nothing is escaped.
use vstd::prelude::*;
use crate::model::{Token, Value, ValuePosition};

verus! {

/// The state of the CSV converter: whether the stream is a single object,
/// the `(key, text)` fields of the record in progress, the open containers
/// of the complex value in progress (whether each is an object, and whether
/// it has a part yet) with its text, and the columns, fixed by the first
/// record.
pub struct CsvState {
    pub single: bool,
    pub record: Seq<(Seq<char>, Seq<char>)>,
    pub frames: Seq<(bool, bool)>,
    pub value: Seq<char>,
    pub header: Option<Seq<Seq<char>>>,
}

/// The field text of a scalar member: strings between quotes, `null` empty.
pub open spec fn member_text(v: Value) -> Seq<char> {
    match v {
        Value::Boolean(b) => if b { "true"@ } else { "false"@ },
        Value::Number(s) => s@,
        Value::String(s) => "\""@ + s@ + "\""@,
        _ => Seq::<char>::empty(),
    }
}

/// The text of a scalar inside a complex value: as a member, but `null`
/// written out.
pub open spec fn part_text(v: Value) -> Seq<char> {
    if v is Null { "null"@ } else { member_text(v) }
}

/// The parts joined by `sep`.
pub open spec fn join(parts: Seq<Seq<char>>, sep: Seq<char>) -> Seq<char>
    decreases parts.len(),
{
    if parts.len() == 0 {
        Seq::<char>::empty()
    } else if parts.len() == 1 {
        parts[0]
    } else {
        join(parts.drop_last(), sep) + sep + parts.last()
    }
}

/// The text of the first field named `k`, empty if there is none.
pub open spec fn lookup(record: Seq<(Seq<char>, Seq<char>)>, k: Seq<char>) -> Seq<char>
    decreases record.len(),
{
    if record.len() == 0 {
        Seq::<char>::empty()
    } else if record[0].0 == k {
        record[0].1
    } else {
        lookup(record.drop_first(), k)
    }
}

/// The fields of a record in the order of the columns.
pub open spec fn row_fields(header: Seq<Seq<char>>, record: Seq<(Seq<char>, Seq<char>)>) -> Seq<Seq<char>> {
    Seq::new(header.len(), |i: int| lookup(record, header[i]))
}

pub open spec fn record_keys(record: Seq<(Seq<char>, Seq<char>)>) -> Seq<Seq<char>> {
    record.map_values(|e: (Seq<char>, Seq<char>)| e.0)
}

/// A finished record: the first one fixes the columns and writes them as
/// the header line; each record then writes its fields in column order.
pub open spec fn flush(st: CsvState) -> (CsvState, Seq<Seq<char>>) {
    let header = match st.header {
        Some(h) => h,
        None => record_keys(st.record),
    };
    let row = join(row_fields(header, st.record), ";"@) + "\r\n"@;
    let lines = if st.header is None { seq![join(header, ";"@) + "\r\n"@, row] } else { seq![row] };
    (CsvState { single: st.single, record: st.record, frames: st.frames, value: st.value, header: Some(header) }, lines)
}

pub open spec fn unchanged(st: CsvState) -> (CsvState, Seq<Seq<char>>) {
    (st, Seq::<Seq<char>>::empty())
}

/// One event `(path, v)`. The first top-level event chooses the mode: `{`
/// a single object, `[` an array of records. Members of a record (depth 1
/// for a single object, 2 in an array) become fields; a complex member is
/// flattened, an object as `(k1: v1 / k2: v2)` and an array as `v1 / v2`,
/// recursively. A record's closing `}` flushes it.
pub open spec fn csv_step(st: CsvState, path: Seq<ValuePosition>, v: Value) -> (CsvState, Seq<Seq<char>>) {
    let level = path.len();
    let member_level: nat = if st.single { 1 } else { 2 };
    if level == 0 {
        match v {
            Value::StartObject => unchanged(CsvState { single: true, record: seq![], ..st }),
            Value::EndObject => flush(st),
            Value::StartArray => unchanged(CsvState { single: false, ..st }),
            _ => unchanged(st),
        }
    } else if !st.single && level == 1 {
        match v {
            Value::StartObject => unchanged(CsvState { record: seq![], ..st }),
            Value::EndObject => flush(st),
            _ => unchanged(st),
        }
    } else if level == member_level {
        match path.last() {
            ValuePosition::Key(k) => match v {
                Value::StartObject => unchanged(CsvState { value: "("@, frames: seq![(true, false)], ..st }),
                Value::StartArray => unchanged(CsvState { value: Seq::<char>::empty(), frames: seq![(false, false)], ..st }),
                Value::EndObject => unchanged(CsvState { record: st.record.push((k@, st.value + ")"@)), frames: seq![], ..st }),
                Value::EndArray => unchanged(CsvState { record: st.record.push((k@, st.value)), frames: seq![], ..st }),
                _ => unchanged(CsvState { record: st.record.push((k@, member_text(v))), ..st }),
            },
            ValuePosition::Index(_) => unchanged(st),
        }
    } else if level > member_level && st.frames.len() > 0 {
        let top = st.frames.last();
        if v is EndObject || v is EndArray {
            unchanged(CsvState {
                frames: st.frames.drop_last(),
                value: if v is EndObject { st.value + ")"@ } else { st.value },
                ..st
            })
        } else {
            let sep = if top.1 { " / "@ } else { Seq::<char>::empty() };
            let label = if top.0 && path.last() is Key { path.last()->Key_0@ + ": "@ } else { Seq::<char>::empty() };
            let frames = st.frames.update(st.frames.len() - 1, (top.0, true));
            let value = st.value + sep + label;
            match v {
                Value::StartObject => unchanged(CsvState { value: value + "("@, frames: frames.push((true, false)), ..st }),
                Value::StartArray => unchanged(CsvState { value, frames: frames.push((false, false)), ..st }),
                _ => unchanged(CsvState { value: value + part_text(v), frames, ..st }),
            }
        }
    } else {
        unchanged(st)
    }
}


pub open spec fn texts(v: Seq<String>) -> Seq<Seq<char>> {
    v.map_values(|s: String| s@)
}

pub open spec fn fields(v: Seq<(String, String)>) -> Seq<(Seq<char>, Seq<char>)> {
    v.map_values(|e: (String, String)| (e.0@, e.1@))
}

fn member_string(v: &Value) -> (r: String)
    ensures
        r@ == member_text(*v),
{
    match v {
        Value::Boolean(b) => if *b { String::from_str("true") } else { String::from_str("false") },
        Value::Number(s) => s.clone(),
        Value::String(s) => {
            let mut out = String::from_str("\"");
            out.append(s.as_str());
            out.append("\"");
            out
        },
        _ => String::new(),
    }
}

/// The parts joined by `;`.
fn join_fields(parts: &Vec<String>) -> (r: String)
    ensures
        r@ == join(texts(parts@), ";"@),
{
    let mut out = String::new();
    let mut i: usize = 0;
    while i < parts.len()
        invariant
            i <= parts@.len(),
            out@ == join(texts(parts@).subrange(0, i as int), ";"@),
        decreases parts@.len() - i,
    {
        let ghost all = texts(parts@);
        assert(all.subrange(0, i + 1).drop_last() =~= all.subrange(0, i as int));
        if i > 0 {
            out.append(";");
        }
        out.append(parts[i].as_str());
        proof {
            if i == 0 {
                assert(out@ =~= all.subrange(0, 1)[0]);
            }
        }
        i = i + 1;
    }
    assert(texts(parts@).subrange(0, parts@.len() as int) =~= texts(parts@));
    out
}

/// The text of the first field named `k`, empty if there is none.
fn lookup_field(record: &Vec<(String, String)>, k: &String) -> (r: String)
    ensures
        r@ == lookup(fields(record@), k@),
{
    let mut i: usize = 0;
    assert(fields(record@).subrange(0, record@.len() as int) =~= fields(record@));
    while i < record.len()
        invariant
            i <= record@.len(),
            lookup(fields(record@), k@) == lookup(fields(record@).subrange(i as int, record@.len() as int), k@),
        decreases record@.len() - i,
    {
        let ghost rest = fields(record@).subrange(i as int, record@.len() as int);
        assert(rest.drop_first() =~= fields(record@).subrange(i + 1, record@.len() as int));
        if record[i].0 == *k {
            return record[i].1.clone();
        }
        i = i + 1;
    }
    String::new()
}

/// Writes events as delimited text.
pub struct CsvConverter {
    single_object: bool,
    object_in_progress: Vec<(String, String)>,
    frames: Vec<(bool, bool)>,
    value_in_progress: String,
    header: Option<Vec<String>>,
}

impl CsvConverter {
    pub closed spec fn state(&self) -> CsvState {
        CsvState {
            single: self.single_object,
            record: fields(self.object_in_progress@),
            frames: self.frames@,
            value: self.value_in_progress@,
            header: match self.header {
                Some(h) => Some(texts(h@)),
                None => None,
            },
        }
    }

    pub fn new() -> (r: CsvConverter)
        ensures
            r.state() == (CsvState {
                single: false,
                record: seq![],
                frames: seq![],
                value: Seq::<char>::empty(),
                header: None,
            }),
    {
        let r = CsvConverter {
            single_object: false,
            object_in_progress: Vec::new(),
            frames: Vec::new(),
            value_in_progress: String::new(),
            header: None,
        };
        assert(r.state().record =~= seq![]);
        r
    }

    /// The header line: the column names.
    fn format_header(header: &Vec<String>) -> (r: String)
        ensures
            r@ == join(texts(header@), ";"@) + "\r\n"@,
    {
        let mut line = join_fields(header);
        line.append("\r\n");
        line
    }

    /// The line of the record in progress, in column order.
    fn format_value_line(&self, header: &Vec<String>) -> (r: String)
        ensures
            r@ == join(row_fields(texts(header@), self.state().record), ";"@) + "\r\n"@,
    {
        let mut parts: Vec<String> = Vec::new();
        let mut i: usize = 0;
        while i < header.len()
            invariant
                i <= header@.len(),
                parts@.len() == i,
                forall|j: int| 0 <= j < i ==> #[trigger] parts@[j]@ == lookup(self.state().record, header@[j]@),
            decreases header@.len() - i,
        {
            let f = lookup_field(&self.object_in_progress, &header[i]);
            parts.push(f);
            i = i + 1;
        }
        assert(texts(parts@) =~= row_fields(texts(header@), self.state().record));
        let mut line = join_fields(&parts);
        line.append("\r\n");
        line
    }

    /// Flushes the record in progress.
    fn send_object(&mut self) -> (r: Vec<String>)
        ensures
            (final(self).state(), texts(r@)) == flush(old(self).state()),
    {
        if self.header.is_none() {
            let mut keys: Vec<String> = Vec::new();
            let mut i: usize = 0;
            while i < self.object_in_progress.len()
                invariant
                    i <= self.object_in_progress@.len(),
                    keys@.len() == i,
                    texts(keys@) =~= record_keys(self.state().record).subrange(0, i as int),
                decreases self.object_in_progress@.len() - i,
            {
                let ghost before = keys@;
                keys.push(self.object_in_progress[i].0.clone());
                assert(fields(self.object_in_progress@)[i as int] == (self.object_in_progress@[i as int].0@,
                    self.object_in_progress@[i as int].1@));
                assert(record_keys(self.state().record)[i as int] == self.object_in_progress@[i as int].0@);
                assert(texts(keys@)[i as int] == keys@[i as int]@);
                assert forall|j: int| 0 <= j < i implies texts(keys@)[j] == texts(before)[j] by {
                    assert(keys@[j] == before[j]);
                }
                assert(texts(keys@) =~= record_keys(self.state().record).subrange(0, i + 1));
                i = i + 1;
            }
            assert(texts(keys@) =~= record_keys(self.state().record));
            let head = Self::format_header(&keys);
            let row = self.format_value_line(&keys);
            self.header = Some(keys);
            let mut out: Vec<String> = Vec::new();
            out.push(head);
            out.push(row);
            assert(texts(out@) =~= flush(old(self).state()).1);
            out
        } else {
            let mut out: Vec<String> = Vec::new();
            match &self.header {
                Some(h) => {
                    out.push(self.format_value_line(h));
                },
                None => {},
            }
            assert(texts(out@) =~= flush(old(self).state()).1);
            out
        }
    }

    /// The lines to write for one event.
    pub fn buffer_object(&mut self, token: &Token) -> (r: Vec<String>)
        ensures
            (final(self).state(), texts(r@)) == csv_step(old(self).state(), token.path@, token.value),
    {
        let level = token.path.current_level();
        let member_level: usize = if self.single_object { 1 } else { 2 };
        let none: Vec<String> = Vec::new();
        assert(texts(none@) =~= Seq::<Seq<char>>::empty());
        if level == 0 {
            match token.value {
                Value::StartObject => {
                    self.single_object = true;
                    self.object_in_progress = Vec::new();
                    assert(fields(self.object_in_progress@) =~= seq![]);
                    none
                },
                Value::EndObject => self.send_object(),
                Value::StartArray => {
                    self.single_object = false;
                    none
                },
                _ => none,
            }
        } else if !self.single_object && level == 1 {
            match token.value {
                Value::StartObject => {
                    self.object_in_progress = Vec::new();
                    assert(fields(self.object_in_progress@) =~= seq![]);
                    none
                },
                Value::EndObject => self.send_object(),
                _ => none,
            }
        } else if level == member_level {
            self.buffer_content(token);
            none
        } else if level > member_level && self.frames.len() > 0 {
            self.build_complex_value(token);
            none
        } else {
            none
        }
    }

    /// A member of the record in progress.
    fn buffer_content(&mut self, token: &Token)
        requires
            token.path@.len() == (if old(self).single_object { 1nat } else { 2nat }),
        ensures
            final(self).state() == csv_step(old(self).state(), token.path@, token.value).0,
    {
        if let Some(ValuePosition::Key(key)) = token.path.top_most() {
            let ghost before = fields(self.object_in_progress@);
            match token.value {
                Value::StartObject => {
                    self.value_in_progress = String::from_str("(");
                    self.frames = Vec::new();
                    self.frames.push((true, false));
                    assert(self.frames@ =~= seq![(true, false)]);
                },
                Value::StartArray => {
                    self.value_in_progress = String::new();
                    self.frames = Vec::new();
                    self.frames.push((false, false));
                    assert(self.frames@ =~= seq![(false, false)]);
                },
                Value::EndObject => {
                    let mut text = self.value_in_progress.clone();
                    text.append(")");
                    self.object_in_progress.push((key, text));
                    self.frames = Vec::new();
                    assert(self.frames@ =~= seq![]);
                    assert(fields(self.object_in_progress@) =~= before.push((token.path@.last()->Key_0@,
                        old(self).value_in_progress@ + ")"@)));
                },
                Value::EndArray => {
                    let text = self.value_in_progress.clone();
                    self.object_in_progress.push((key, text));
                    self.frames = Vec::new();
                    assert(self.frames@ =~= seq![]);
                    assert(fields(self.object_in_progress@) =~= before.push((token.path@.last()->Key_0@,
                        old(self).value_in_progress@)));
                },
                _ => {
                    let text = member_string(&token.value);
                    self.object_in_progress.push((key, text));
                    assert(fields(self.object_in_progress@) =~= before.push((token.path@.last()->Key_0@,
                        member_text(token.value))));
                },
            }
        }
    }

    /// A part of the complex value in progress.
    fn build_complex_value(&mut self, token: &Token)
        requires
            token.path@.len() > (if old(self).single_object { 1nat } else { 2nat }),
            old(self).frames@.len() > 0,
        ensures
            final(self).state() == csv_step(old(self).state(), token.path@, token.value).0,
    {
        let n = self.frames.len();
        let (is_object, has_part) = self.frames[n - 1];
        match token.value {
            Value::EndObject => {
                self.frames.pop();
                self.value_in_progress.append(")");
            },
            Value::EndArray => {
                self.frames.pop();
            },
            _ => {
                if has_part {
                    self.value_in_progress.append(" / ");
                }
                if is_object {
                    if let Some(ValuePosition::Key(key)) = token.path.top_most() {
                        self.value_in_progress.append(key.as_str());
                        self.value_in_progress.append(": ");
                    }
                }
                self.frames.set(n - 1, (is_object, true));
                match token.value {
                    Value::StartObject => {
                        self.value_in_progress.append("(");
                        self.frames.push((true, false));
                    },
                    Value::StartArray => {
                        self.frames.push((false, false));
                    },
                    _ => {
                        let text = if let Value::Null = token.value {
                            String::from_str("null")
                        } else {
                            member_string(&token.value)
                        };
                        self.value_in_progress.append(text.as_str());
                    },
                }
                proof {
                    let top = old(self).frames@.last();
                    let sep = if top.1 { " / "@ } else { Seq::<char>::empty() };
                    let label = if top.0 && token.path@.last() is Key { token.path@.last()->Key_0@ + ": "@ }
                        else { Seq::<char>::empty() };
                    let base = old(self).value_in_progress@ + sep + label;
                    match token.value {
                        Value::StartObject => { assert(self.value_in_progress@ =~= base + "("@); },
                        Value::StartArray => { assert(self.value_in_progress@ =~= base); },
                        _ => { assert(self.value_in_progress@ =~= base + part_text(token.value)); },
                    }
                }
            },
        }
    }
}

/// The column lock of array mode: every line written for a record after
/// the first holds exactly the fields of the columns fixed by the first
/// record, in their order: the field of a column is the record's field of
/// that name, or empty if it has none, and fields of other names are left
/// out.
pub proof fn lemma_column_lock(st: CsvState, path: Seq<ValuePosition>, v: Value)
    requires
        st.header is Some,
    ensures
        ({
            let (st2, lines) = csv_step(st, path, v);
            &&& st2.header == st.header
            &&& lines.len() <= 1
            &&& lines.len() == 1 ==> lines[0] == join(row_fields(st.header->Some_0, st.record), ";"@) + "\r\n"@
                && row_fields(st.header->Some_0, st.record).len() == st.header->Some_0.len()
                && forall|i: int| 0 <= i < st.header->Some_0.len() ==> #[trigger] row_fields(st.header->Some_0,
                    st.record)[i] == lookup(st.record, st.header->Some_0[i])
        }),
{
}


/// The converter over a sequence of events: its final state and the lines
/// it wrote.
pub open spec fn csv_run(st: CsvState, events: Seq<(Seq<ValuePosition>, Value)>) -> (CsvState, Seq<Seq<char>>)
    decreases events.len(),
{
    if events.len() == 0 {
        (st, Seq::<Seq<char>>::empty())
    } else {
        let (s1, l1) = csv_step(st, events[0].0, events[0].1);
        let (s2, l2) = csv_run(s1, events.drop_first());
        (s2, l1 + l2)
    }
}

/// Whether every line is a record written in the columns `header`: one
/// field per column, in their order, each the record's field of that name.
pub open spec fn rows_in(lines: Seq<Seq<char>>, header: Seq<Seq<char>>) -> bool {
    forall|i: int| 0 <= i < lines.len() ==> is_row(#[trigger] lines[i], header)
}

/// Whether `line` is some record written in the columns `header`.
pub open spec fn is_row(line: Seq<char>, header: Seq<Seq<char>>) -> bool {
    exists|rec: Seq<(Seq<char>, Seq<char>)>| line == join(row_fields(header, rec), ";"@) + "\r\n"@
}

proof fn lemma_rows_in_concat(a: Seq<Seq<char>>, b: Seq<Seq<char>>, header: Seq<Seq<char>>)
    requires
        rows_in(a, header),
        rows_in(b, header),
    ensures
        rows_in(a + b, header),
{
    assert forall|i: int| 0 <= i < (a + b).len() implies is_row(#[trigger] (a + b)[i], header) by {
        if i < a.len() {
            assert((a + b)[i] == a[i]);
        } else {
            assert((a + b)[i] == b[i - a.len()]);
        }
    }
}

/// Once the columns are fixed, every later line is a record in those columns.
proof fn lemma_locked_run(st: CsvState, events: Seq<(Seq<ValuePosition>, Value)>)
    requires
        st.header is Some,
    ensures
        csv_run(st, events).0.header == st.header,
        rows_in(csv_run(st, events).1, st.header->Some_0),
    decreases events.len(),
{
    let h = st.header->Some_0;
    if events.len() > 0 {
        lemma_column_lock(st, events[0].0, events[0].1);
        let (s1, l1) = csv_step(st, events[0].0, events[0].1);
        lemma_locked_run(s1, events.drop_first());
        if l1.len() == 1 {
            assert(l1[0] == join(row_fields(h, st.record), ";"@) + "\r\n"@);
        }
        assert(rows_in(l1, h));
        lemma_rows_in_concat(l1, csv_run(s1, events.drop_first()).1, h);
    }
}

/// Before the columns are fixed, a step writes nothing, unless it closes
/// the first record: then it fixes the columns and writes the header line
/// and that record's line.
proof fn lemma_unlocked_step(st: CsvState, path: Seq<ValuePosition>, v: Value)
    requires
        st.header is None,
    ensures
        ({
            let (st2, lines) = csv_step(st, path, v);
            &&& st2.header is None ==> lines.len() == 0
            &&& st2.header matches Some(h) ==> lines == seq![join(h, ";"@) + "\r\n"@,
                join(row_fields(h, st.record), ";"@) + "\r\n"@]
        }),
{
}

/// The column lock over a whole stream of events: until the first record is
/// finished nothing is written; then the first line is the header, the
/// column names fixed by that record joined by `;`, and every other line
/// is a record in those columns, one field per column.
pub proof fn lemma_csv_columns_locked(st: CsvState, events: Seq<(Seq<ValuePosition>, Value)>)
    requires
        st.header is None,
    ensures
        ({
            let (st2, lines) = csv_run(st, events);
            &&& st2.header is None ==> lines.len() == 0
            &&& st2.header matches Some(h) ==> lines.len() >= 2 && lines[0] == join(h, ";"@) + "\r\n"@
                && rows_in(lines.drop_first(), h)
        }),
    decreases events.len(),
{
    if events.len() > 0 {
        lemma_unlocked_step(st, events[0].0, events[0].1);
        let (s1, l1) = csv_step(st, events[0].0, events[0].1);
        let rest = events.drop_first();
        if s1.header is None {
            lemma_csv_columns_locked(s1, rest);
            assert(l1 + csv_run(s1, rest).1 =~= csv_run(s1, rest).1);
        } else {
            let h = s1.header->Some_0;
            lemma_locked_run(s1, rest);
            let l2 = csv_run(s1, rest).1;
            let first: Seq<Seq<char>> = seq![l1[1]];
            assert(rows_in(first, h)) by {
                assert(first[0] == join(row_fields(h, st.record), ";"@) + "\r\n"@);
                assert(is_row(first[0], h));
            }
            lemma_rows_in_concat(first, l2, h);
            assert((l1 + l2).drop_first() =~= first + l2);
        }
    }
}

} // verus!
