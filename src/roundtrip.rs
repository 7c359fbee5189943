//! What the JSON converter writes for the events that the producer makes:
//! the JSON text of any nested stream of events, and in particular of an
//! array of flat records.
use vstd::prelude::*;
use crate::convert::json::{json_output, json_text};
use crate::decode::JsonToken;
use crate::entity_stream::{OpenEntry, Run, bump, entry_of, event_seq, is_odata_text, lemma_run_concat, nest_steps, run, sent,
    value_of};
use crate::model::step_text;
use crate::model::{Value, ValuePosition, path_text};

verus! {

/// A scalar token: `null`, a boolean, a number or a string.
pub open spec fn is_scalar_token(t: JsonToken) -> bool {
    t is JsNull || t is JsBoolean || t is JsNumber || t is JsString
}

/// A flat record: members whose values are scalars.
pub open spec fn flat(r: Seq<(String, JsonToken)>) -> bool {
    forall|j: int| 0 <= j < r.len() ==> is_scalar_token(#[trigger] r[j].1)
}

/// The tokens of the members of a record: each key, then its value.
pub open spec fn member_tokens(ms: Seq<(String, JsonToken)>) -> Seq<JsonToken>
    decreases ms.len(),
{
    if ms.len() == 0 {
        seq![]
    } else {
        seq![JsonToken::JsKey(ms[0].0), ms[0].1] + member_tokens(ms.drop_first())
    }
}

pub open spec fn record_tokens(r: Seq<(String, JsonToken)>) -> Seq<JsonToken> {
    seq![JsonToken::StartObject] + member_tokens(r) + seq![JsonToken::EndObject]
}

/// The tokens of the elements of an array of records.
pub open spec fn records_tokens(rs: Seq<Seq<(String, JsonToken)>>) -> Seq<JsonToken>
    decreases rs.len(),
{
    if rs.len() == 0 {
        seq![]
    } else {
        record_tokens(rs[0]) + records_tokens(rs.drop_first())
    }
}

/// The JSON converter over a sequence of events, from the set `known`.
pub open spec fn json_run(known: Set<Seq<char>>, events: Seq<(Seq<ValuePosition>, Value)>) -> (Seq<char>, Set<Seq<char>>)
    decreases events.len(),
{
    if events.len() == 0 {
        (Seq::<char>::empty(), known)
    } else {
        let (o, k) = json_output(known, events[0].0, events[0].1);
        let (rest, k2) = json_run(k, events.drop_first());
        (o + rest, k2)
    }
}

/// Whether a record keeps any member once control keys are left out.
pub open spec fn kept_any(ms: Seq<(String, JsonToken)>) -> bool
    decreases ms.len(),
{
    ms.len() > 0 && (!is_odata_text(ms[0].0@) || kept_any(ms.drop_first()))
}

/// The members of a record as JSON, `"key": value` joined by `,`, control
/// keys left out; `first` tells whether no member was written before.
pub open spec fn members_json(ms: Seq<(String, JsonToken)>, first: bool) -> Seq<char>
    decreases ms.len(),
{
    if ms.len() == 0 {
        Seq::<char>::empty()
    } else if is_odata_text(ms[0].0@) {
        members_json(ms.drop_first(), first)
    } else {
        (if first { Seq::<char>::empty() } else { ","@ }) + "\""@ + ms[0].0@ + "\": "@ + json_text(value_of(ms[0].1))
            + members_json(ms.drop_first(), false)
    }
}

/// The records from the `i`-th on as JSON objects joined by `,`.
pub open spec fn elements_json(rs: Seq<Seq<(String, JsonToken)>>, i: nat) -> Seq<char>
    decreases rs.len(),
{
    if rs.len() == 0 {
        Seq::<char>::empty()
    } else {
        (if i > 0 { ","@ } else { Seq::<char>::empty() }) + "{"@ + members_json(rs[0], true) + "}"@
            + elements_json(rs.drop_first(), i + 1)
    }
}

pub open spec fn member_events(ms: Seq<(String, JsonToken)>, i: usize) -> Seq<(Seq<ValuePosition>, Value)>
    decreases ms.len(),
{
    if ms.len() == 0 {
        seq![]
    } else {
        event_seq(sent(seq![ValuePosition::Index(i), ValuePosition::Key(ms[0].0)], value_of(ms[0].1)))
            + member_events(ms.drop_first(), i)
    }
}

pub open spec fn record_events(r: Seq<(String, JsonToken)>, i: usize) -> Seq<(Seq<ValuePosition>, Value)> {
    seq![(seq![ValuePosition::Index(i)], Value::StartObject)] + member_events(r, i)
        + seq![(seq![ValuePosition::Index(i)], Value::EndObject)]
}

pub open spec fn records_events(rs: Seq<Seq<(String, JsonToken)>>, i: usize) -> Seq<(Seq<ValuePosition>, Value)>
    decreases rs.len(),
{
    if rs.len() == 0 {
        seq![]
    } else {
        record_events(rs[0], i) + records_events(rs.drop_first(), (i + 1) as usize)
    }
}

proof fn lemma_run_one(path: Seq<ValuePosition>, index: Option<usize>, t: JsonToken)
    ensures
        ({
            let p = crate::entity_stream::produce(path, index, t);
            !(p.done || p.overflow) ==> run(path, index, seq![t]) == (Run {
                path: p.path,
                index: p.index,
                events: event_seq(p.event),
                stopped: false,
            })
        }),
{
    let ts: Seq<JsonToken> = seq![t];
    let p = crate::entity_stream::produce(path, index, t);
    assert(ts.drop_first() =~= Seq::<JsonToken>::empty());
    let rest = run(p.path, p.index, ts.drop_first());
    assert(event_seq(p.event) + rest.events =~= event_seq(p.event));
}

proof fn lemma_json_run_one(known: Set<Seq<char>>, e: (Seq<ValuePosition>, Value))
    ensures
        json_run(known, seq![e]) == json_output(known, e.0, e.1),
{
    let es: Seq<(Seq<ValuePosition>, Value)> = seq![e];
    assert(es.drop_first() =~= Seq::<(Seq<ValuePosition>, Value)>::empty());
    let (o, k) = json_output(known, e.0, e.1);
    assert(json_run(k, es.drop_first()) == (Seq::<char>::empty(), k));
    assert(o + Seq::<char>::empty() =~= o);
}

proof fn lemma_members_run(i: usize, ms: Seq<(String, JsonToken)>)
    requires
        flat(ms),
    ensures
        run(seq![ValuePosition::Index(i)], None, member_tokens(ms)) == (Run {
            path: seq![ValuePosition::Index(i)],
            index: None,
            events: member_events(ms, i),
            stopped: false,
        }),
    decreases ms.len(),
{
    let base = seq![ValuePosition::Index(i)];
    if ms.len() > 0 {
        let rest = ms.drop_first();
        assert(flat(rest)) by {
            assert forall|j: int| 0 <= j < rest.len() implies is_scalar_token(#[trigger] rest[j].1) by {
                assert(rest[j] == ms[j + 1]);
            }
        }
        lemma_members_run(i, rest);
        let ts = member_tokens(ms);
        let keyed = base.push(ValuePosition::Key(ms[0].0));
        assert(ts[0] == JsonToken::JsKey(ms[0].0));
        assert(ts.drop_first()[0] == ms[0].1);
        assert(ts.drop_first().drop_first() =~= member_tokens(rest));
        assert(keyed.drop_last() =~= base);
        assert(keyed =~= seq![ValuePosition::Index(i), ValuePosition::Key(ms[0].0)]);
        assert(is_scalar_token(ms[0].1));
        let after_key = run(keyed, None, ts.drop_first());
        assert(after_key.events =~= event_seq(sent(keyed, value_of(ms[0].1))) + member_events(rest, i));
        assert(run(base, None, ts).events =~= Seq::<(Seq<ValuePosition>, Value)>::empty() + after_key.events);
    }
}

proof fn lemma_record_run(i: usize, r: Seq<(String, JsonToken)>)
    requires
        flat(r),
        i < usize::MAX,
    ensures
        run(seq![], Some(i), record_tokens(r)) == (Run {
            path: seq![],
            index: Some((i + 1) as usize),
            events: record_events(r, i),
            stopped: false,
        }),
{
    let base = seq![ValuePosition::Index(i)];
    let ts = record_tokens(r);
    lemma_members_run(i, r);
    let tail = member_tokens(r) + seq![JsonToken::EndObject];
    assert(ts[0] == JsonToken::StartObject);
    assert(ts.drop_first() =~= tail);
    assert(Seq::<ValuePosition>::empty().push(ValuePosition::Index(i)) =~= base);
    lemma_run_concat(base, None, member_tokens(r), seq![JsonToken::EndObject]);
    assert(base.drop_last() =~= Seq::<ValuePosition>::empty());
    lemma_run_one(base, None, JsonToken::EndObject);
    assert(crate::entity_stream::odata_free(base));
    assert(run(seq![], Some(i), ts).events =~= record_events(r, i));
}

proof fn lemma_records_run(i: usize, rs: Seq<Seq<(String, JsonToken)>>)
    requires
        forall|k: int| 0 <= k < rs.len() ==> flat(#[trigger] rs[k]),
        i + rs.len() <= usize::MAX,
    ensures
        run(seq![], Some(i), records_tokens(rs)) == (Run {
            path: seq![],
            index: Some((i + rs.len()) as usize),
            events: records_events(rs, i),
            stopped: false,
        }),
    decreases rs.len(),
{
    if rs.len() == 0 {
    } else {
        let rest = rs.drop_first();
        assert forall|k: int| 0 <= k < rest.len() implies flat(#[trigger] rest[k]) by {
            assert(rest[k] == rs[k + 1]);
        }
        assert(flat(rs[0]));
        lemma_record_run(i, rs[0]);
        lemma_records_run((i + 1) as usize, rest);
        lemma_run_concat(seq![], Some(i), record_tokens(rs[0]), records_tokens(rest));
    }
}

proof fn lemma_json_run_concat(known: Set<Seq<char>>, e1: Seq<(Seq<ValuePosition>, Value)>, e2: Seq<(Seq<ValuePosition>, Value)>)
    ensures
        ({
            let (o1, k1) = json_run(known, e1);
            let (o2, k2) = json_run(k1, e2);
            json_run(known, e1 + e2) == (o1 + o2, k2)
        }),
    decreases e1.len(),
{
    if e1.len() == 0 {
        assert(e1 + e2 =~= e2);
        assert(Seq::<char>::empty() + json_run(known, e2).0 =~= json_run(known, e2).0);
    } else {
        let (o, k) = json_output(known, e1[0].0, e1[0].1);
        assert((e1 + e2)[0] == e1[0]);
        assert((e1 + e2).drop_first() =~= e1.drop_first() + e2);
        lemma_json_run_concat(k, e1.drop_first(), e2);
        let (r1, k1) = json_run(k, e1.drop_first());
        let (o2, k2) = json_run(k1, e2);
        assert(o + (r1 + o2) =~= (o + r1) + o2);
    }
}

/// The set of objects with a written member while record `i` is open.
pub open spec fn record_known(i: usize, first: bool) -> Set<Seq<char>> {
    if first { Set::<Seq<char>>::empty() } else { Set::<Seq<char>>::empty().insert(path_text(seq![ValuePosition::Index(i)])) }
}

proof fn lemma_members_json(i: usize, ms: Seq<(String, JsonToken)>, first: bool)
    requires
        flat(ms),
    ensures
        json_run(record_known(i, first), member_events(ms, i)) == (members_json(ms, first),
            record_known(i, first && !kept_any(ms))),
    decreases ms.len(),
{
    if ms.len() > 0 {
        let rest = ms.drop_first();
        let path = seq![ValuePosition::Index(i), ValuePosition::Key(ms[0].0)];
        let pt = path_text(seq![ValuePosition::Index(i)]);
        assert(path.drop_last() =~= seq![ValuePosition::Index(i)]);
        assert(flat(rest)) by {
            assert forall|j: int| 0 <= j < rest.len() implies is_scalar_token(#[trigger] rest[j].1) by {
                assert(rest[j] == ms[j + 1]);
            }
        }
        assert(is_scalar_token(ms[0].1));
        if is_odata_text(ms[0].0@) {
            assert(!crate::entity_stream::odata_free(path)) by {
                assert(path[1] == ValuePosition::Key(ms[0].0));
            }
            lemma_members_json(i, rest, first);
            assert(member_events(ms, i) =~= member_events(rest, i));
        } else {
            assert(crate::entity_stream::odata_free(path));
            lemma_members_json(i, rest, false);
            let ev = member_events(ms, i);
            assert(ev[0] == (path, value_of(ms[0].1)));
            assert(ev.drop_first() =~= member_events(rest, i));
            assert(record_known(i, first).insert(pt) =~= record_known(i, false));
            assert(record_known(i, first).contains(pt) == !first);
        }
    }
}

proof fn lemma_record_json(i: usize, r: Seq<(String, JsonToken)>)
    requires
        flat(r),
    ensures
        json_run(Set::<Seq<char>>::empty(), record_events(r, i)) == ((if i > 0 { ","@ } else { Seq::<char>::empty() })
            + "{"@ + members_json(r, true) + "}"@, Set::<Seq<char>>::empty()),
{
    let base = seq![ValuePosition::Index(i)];
    let open: Seq<(Seq<ValuePosition>, Value)> = seq![(base, Value::StartObject)];
    let close: Seq<(Seq<ValuePosition>, Value)> = seq![(base, Value::EndObject)];
    lemma_json_run_concat(Set::<Seq<char>>::empty(), open, member_events(r, i));
    lemma_json_run_concat(Set::<Seq<char>>::empty(), open + member_events(r, i), close);
    lemma_members_json(i, r, true);
    assert(record_known(i, true) == Set::<Seq<char>>::empty());
    let k = record_known(i, !kept_any(r));
    assert(k.remove(path_text(base)) =~= Set::<Seq<char>>::empty());
    assert(open.drop_first() =~= Seq::<(Seq<ValuePosition>, Value)>::empty());
    assert(close.drop_first() =~= Seq::<(Seq<ValuePosition>, Value)>::empty());
    let o = (if i > 0 { ","@ } else { Seq::<char>::empty() }) + "{"@;
    lemma_json_run_one(Set::<Seq<char>>::empty(), (base, Value::StartObject));
    lemma_json_run_one(k, (base, Value::EndObject));
    assert(json_run(Set::<Seq<char>>::empty(), open).0 =~= o);
    assert(json_run(k, close).0 =~= "}"@);
    assert(json_run(Set::<Seq<char>>::empty(), record_events(r, i)).0 =~= o + members_json(r, true) + "}"@);
}

proof fn lemma_records_json(i: usize, rs: Seq<Seq<(String, JsonToken)>>)
    requires
        forall|k: int| 0 <= k < rs.len() ==> flat(#[trigger] rs[k]),
        i + rs.len() <= usize::MAX,
    ensures
        json_run(Set::<Seq<char>>::empty(), records_events(rs, i)) == (elements_json(rs, i as nat),
            Set::<Seq<char>>::empty()),
    decreases rs.len(),
{
    if rs.len() > 0 {
        let rest = rs.drop_first();
        assert forall|k: int| 0 <= k < rest.len() implies flat(#[trigger] rest[k]) by {
            assert(rest[k] == rs[k + 1]);
        }
        assert(flat(rs[0]));
        lemma_record_json(i, rs[0]);
        lemma_records_json((i + 1) as usize, rest);
        lemma_json_run_concat(Set::<Seq<char>>::empty(), record_events(rs[0], i), records_events(rest, (i + 1) as usize));
        let head = (if i > 0 { ","@ } else { Seq::<char>::empty() }) + "{"@ + members_json(rs[0], true) + "}"@;
        assert(json_run(Set::<Seq<char>>::empty(), records_events(rs, i)).0 =~= head + elements_json(rest, (i + 1) as nat));
    }
}

/// The JSON text of an array of flat records (members with scalar values):
/// the events that the producer makes of the elements of such an array,
/// between its opening and closing events, written by the JSON converter,
/// are `[`, the records as `{"key": value,...}` joined by `,` with the
/// members under control keys left out, and `]`; and the producer's walk
/// ends at the array's `]`. This covers the producer and the converter; the
/// tokenizer's part is not covered.
pub proof fn lemma_flat_records_json(rs: Seq<Seq<(String, JsonToken)>>)
    requires
        forall|k: int| 0 <= k < rs.len() ==> flat(#[trigger] rs[k]),
        rs.len() <= usize::MAX,
    ensures
        ({
            let r = run(seq![], Some(0usize), records_tokens(rs).push(JsonToken::EndArray));
            &&& r.stopped
            &&& json_run(Set::<Seq<char>>::empty(),
                seq![(Seq::<ValuePosition>::empty(), Value::StartArray)] + r.events
                    + seq![(Seq::<ValuePosition>::empty(), Value::EndArray)]).0
                == "["@ + elements_json(rs, 0) + "]"@
        }),
{
    let e: Seq<JsonToken> = seq![JsonToken::EndArray];
    lemma_records_run(0, rs);
    lemma_run_concat(seq![], Some(0usize), records_tokens(rs), e);
    assert(records_tokens(rs).push(JsonToken::EndArray) =~= records_tokens(rs) + e);
    let r = run(seq![], Some(0usize), records_tokens(rs).push(JsonToken::EndArray));
    assert(r.events =~= records_events(rs, 0));
    let open: Seq<(Seq<ValuePosition>, Value)> = seq![(Seq::<ValuePosition>::empty(), Value::StartArray)];
    let close: Seq<(Seq<ValuePosition>, Value)> = seq![(Seq::<ValuePosition>::empty(), Value::EndArray)];
    lemma_json_run_concat(Set::<Seq<char>>::empty(), open, records_events(rs, 0));
    lemma_json_run_concat(Set::<Seq<char>>::empty(), open + records_events(rs, 0), close);
    lemma_records_json(0, rs);
    assert(open.drop_first() =~= Seq::<(Seq<ValuePosition>, Value)>::empty());
    assert(close.drop_first() =~= Seq::<(Seq<ValuePosition>, Value)>::empty());
    lemma_json_run_one(Set::<Seq<char>>::empty(), (Seq::<ValuePosition>::empty(), Value::StartArray));
    lemma_json_run_one(Set::<Seq<char>>::empty(), (Seq::<ValuePosition>::empty(), Value::EndArray));
    assert(json_run(Set::<Seq<char>>::empty(), open).0 =~= "["@);
    assert(json_run(Set::<Seq<char>>::empty(), close).0 =~= "]"@);
    assert(("["@ + elements_json(rs, 0)) + "]"@ =~= "["@ + elements_json(rs, 0) + "]"@);
}


/// The JSON text of a stream of nested events, given for each open
/// container whether it is an object and whether it has a child yet: a
/// closing event closes its container; any other event is preceded by `,`
/// unless it is its container's first child, and inside an object by its
/// key as `"key": `; its own text follows, and an opening event opens a
/// container without children.
pub open spec fn json_events(stack: Seq<(bool, bool)>, events: Seq<(Seq<ValuePosition>, Value)>) -> Seq<char>
    decreases events.len(),
{
    if events.len() == 0 {
        Seq::<char>::empty()
    } else {
        let (p, v) = events[0];
        if v is EndObject || v is EndArray {
            json_text(v) + json_events(stack.drop_last(), events.drop_first())
        } else {
            let top = stack.last();
            let sep = if top.1 { ","@ } else { Seq::<char>::empty() };
            let label = if top.0 { "\""@ + p.last()->Key_0@ + "\": "@ } else { Seq::<char>::empty() };
            let st1 = stack.drop_last().push((top.0, true));
            let st2 = if v is StartObject || v is StartArray { st1.push((v is StartObject, false)) } else { st1 };
            sep + label + json_text(v) + json_events(st2, events.drop_first())
        }
    }
}

/// For each open container: whether it is an object, and whether it has a
/// child yet, as the JSON converter knows it (an array by its next index,
/// an object by the set of objects with a written member).
pub open spec fn json_flags(stack: Seq<OpenEntry>, known: Set<Seq<char>>) -> Seq<(bool, bool)> {
    Seq::new(stack.len(), |k: int| (stack[k].1 is None, match stack[k].1 {
        Some(n) => n > 0,
        None => known.contains(path_text(stack[k].0)),
    }))
}

/// The converter's set and the open containers agree: the texts of the
/// containers' paths grow strictly from the outermost in, only an array
/// stands at the empty path, and the set holds texts of open objects only.
pub open spec fn json_ready(stack: Seq<OpenEntry>, known: Set<Seq<char>>) -> bool {
    &&& forall|j: int, k: int| 0 <= j < k < stack.len() ==> #[trigger] path_text(stack[j].0).len()
        < #[trigger] path_text(stack[k].0).len()
    &&& forall|k: int| 0 <= k < stack.len() && (#[trigger] stack[k]).0.len() == 0 ==> stack[k].1 is Some
    &&& forall|x: Seq<char>| #[trigger] known.contains(x) ==> exists|k: int| 0 <= k < stack.len()
        && stack[k].1 is None && path_text(stack[k].0) == x
}

proof fn lemma_text_grows(top: Seq<ValuePosition>, p: Seq<ValuePosition>)
    requires
        p.len() == top.len() + 1,
        p.drop_last() == top,
        top.len() == 0 ==> p.last() is Index,
    ensures
        path_text(p).len() > path_text(top).len(),
        path_text(p) == path_text(top) + step_text(p.last(), p.len() == 1),
{
    match p.last() {
        ValuePosition::Key(k) => {},
        ValuePosition::Index(i) => {},
    }
}

proof fn lemma_json_close(stack: Seq<OpenEntry>, known: Set<Seq<char>>, p: Seq<ValuePosition>, v: Value)
    requires
        json_ready(stack, known),
        stack.len() > 0,
        p == stack.last().0,
        v is EndObject || v is EndArray,
        (v is EndArray <==> stack.last().1 is Some),
    ensures
        ({
            let (o, k2) = json_output(known, p, v);
            &&& o == json_text(v)
            &&& json_ready(stack.drop_last(), k2)
            &&& json_flags(stack.drop_last(), k2) == json_flags(stack, known).drop_last()
        }),
{
    let (o, k2) = json_output(known, p, v);
    let n = stack.len();
    let s2 = stack.drop_last();
    assert forall|x: Seq<char>| #[trigger] k2.contains(x) implies exists|k: int| 0 <= k < s2.len()
        && s2[k].1 is None && path_text(s2[k].0) == x by {
        let k = choose|k: int| 0 <= k < stack.len() && stack[k].1 is None && path_text(stack[k].0) == x;
        if k == n - 1 {
            assert(v is EndObject);
            assert(false);
        }
        assert(s2[k] == stack[k]);
    }
    assert forall|j: int, k: int| 0 <= j < k < s2.len() implies #[trigger] path_text(s2[j].0).len()
        < #[trigger] path_text(s2[k].0).len() by {
        assert(s2[j] == stack[j] && s2[k] == stack[k]);
    }
    assert forall|k: int| 0 <= k < s2.len() && (#[trigger] s2[k]).0.len() == 0 implies s2[k].1 is Some by {
        assert(s2[k] == stack[k]);
    }
    assert forall|k: int| 0 <= k < s2.len() implies json_flags(s2, k2)[k] == json_flags(stack, known)[k] by {
        assert(s2[k] == stack[k]);
        assert(path_text(stack[k].0).len() < path_text(stack[n - 1].0).len());
    }
    assert(json_flags(s2, k2) =~= json_flags(stack, known).drop_last());
}

proof fn lemma_json_child(stack: Seq<OpenEntry>, known: Set<Seq<char>>, p: Seq<ValuePosition>, v: Value)
    requires
        json_ready(stack, known),
        stack.len() > 0,
        !(v is EndObject || v is EndArray),
        p.len() == stack.last().0.len() + 1,
        p.drop_last() == stack.last().0,
        match stack.last().1 {
            Some(n) => p.last() matches ValuePosition::Index(j) && j as nat == n,
            None => p.last() is Key,
        },
    ensures
        ({
            let (o, k2) = json_output(known, p, v);
            let flags = json_flags(stack, known);
            let top = flags.last();
            let st1 = flags.drop_last().push((top.0, true));
            let s2 = if v is StartObject || v is StartArray { bump(stack).push(entry_of(p, v)) } else { bump(stack) };
            &&& o == (if top.1 { ","@ } else { Seq::<char>::empty() })
                + (if top.0 { "\""@ + p.last()->Key_0@ + "\": "@ } else { Seq::<char>::empty() }) + json_text(v)
            &&& json_ready(s2, k2)
            &&& json_flags(s2, k2) == if v is StartObject || v is StartArray { st1.push((v is StartObject, false)) } else { st1 }
        }),
{
    let (o, k2) = json_output(known, p, v);
    let n = stack.len();
    let top = stack.last();
    let tt = path_text(top.0);
    lemma_text_grows(top.0, p);
    let b = bump(stack);
    let opening = v is StartObject || v is StartArray;
    let s2 = if opening { b.push(entry_of(p, v)) } else { b };
    assert(forall|k: int| 0 <= k < n - 1 ==> b[k] == stack[k]);
    assert(b[n - 1].0 == top.0 && (b[n - 1].1 is None <==> top.1 is None));
    assert(forall|k: int| 0 <= k < n ==> s2[k] == b[k]);
    if let ValuePosition::Key(key) = p.last() {
        assert(k2 == known.insert(tt));
        let parent = path_text(p.drop_last());
        assert(parent == tt);
        assert(o =~= (if known.contains(tt) { ","@ } else { Seq::<char>::empty() }) + "\""@ + key@ + "\": "@
            + json_text(v));
    } else {
        assert(k2 == known);
    }
    assert forall|j: int, k: int| 0 <= j < k < s2.len() implies #[trigger] path_text(s2[j].0).len()
        < #[trigger] path_text(s2[k].0).len() by {
        if k == n {
            assert(s2[k].0 == p);
            assert(j == n - 1 || path_text(stack[j].0).len() < tt.len());
        }
    }
    assert forall|k: int| 0 <= k < s2.len() && (#[trigger] s2[k]).0.len() == 0 implies s2[k].1 is Some by {
        if k < n {
            assert(s2[k].0 == stack[k].0);
            assert(stack[k].0.len() == 0 ==> stack[k].1 is Some);
        }
    }
    assert forall|x: Seq<char>| #[trigger] k2.contains(x) implies exists|k: int| 0 <= k < s2.len()
        && s2[k].1 is None && path_text(s2[k].0) == x by {
        if known.contains(x) {
            let k = choose|k: int| 0 <= k < stack.len() && stack[k].1 is None && path_text(stack[k].0) == x;
            assert(s2[k].0 == stack[k].0 && s2[k].1 is None);
        } else {
            assert(x == tt);
            assert(s2[n - 1].0 == top.0 && s2[n - 1].1 is None);
        }
    }
    let flags = json_flags(stack, known);
    let st1 = flags.drop_last().push((flags.last().0, true));
    assert forall|k: int| 0 <= k < n - 1 implies json_flags(s2, k2)[k] == st1[k] by {
        assert(path_text(stack[k].0).len() < tt.len());
    }
    assert(json_flags(s2, k2)[n - 1] == st1[n - 1]);
    if opening {
        assert(!k2.contains(path_text(p))) by {
            if k2.contains(path_text(p)) {
                let k = choose|k: int| 0 <= k < s2.len() && s2[k].1 is None && path_text(s2[k].0) == path_text(p);
                assert(k < n);
            }
        }
        assert(json_flags(s2, k2) =~= st1.push((v is StartObject, false)));
    } else {
        assert(json_flags(s2, k2) =~= st1);
    }
}

/// The JSON converter writes nested events as JSON: over any stream of
/// events that nests with the right steps (`nest_steps`, which the producer
/// keeps over every walk) from open containers whose converter state agrees
/// (`json_ready`), its output is `json_events`, the JSON text of those
/// events: commas exactly between the children of a container, each
/// object's member written `"key": value`, each container closed by its own
/// bracket.
pub proof fn lemma_json_events(stack: Seq<OpenEntry>, known: Set<Seq<char>>, events: Seq<(Seq<ValuePosition>, Value)>)
    requires
        nest_steps(stack, events),
        json_ready(stack, known),
    ensures
        json_run(known, events).0 == json_events(json_flags(stack, known), events),
    decreases events.len(),
{
    if events.len() > 0 {
        let (p, v) = events[0];
        let rest = events.drop_first();
        let (o, k2) = json_output(known, p, v);
        if v is EndObject || v is EndArray {
            lemma_json_close(stack, known, p, v);
            lemma_json_events(stack.drop_last(), k2, rest);
        } else {
            lemma_json_child(stack, known, p, v);
            let s2 = if v is StartObject || v is StartArray { bump(stack).push(entry_of(p, v)) } else { bump(stack) };
            lemma_json_events(s2, k2, rest);
            let flags = json_flags(stack, known);
            let top = flags.last();
            let sep = if top.1 { ","@ } else { Seq::<char>::empty() };
            let label = if top.0 { "\""@ + p.last()->Key_0@ + "\": "@ } else { Seq::<char>::empty() };
            assert(o + json_run(k2, rest).0 =~= sep + label + json_text(v) + json_run(k2, rest).0);
        }
    }
}

/// The JSON round trip from the producer's events: after the opening `[`
/// of the root array, the events of the elements (which nest from the root
/// array, see `lemma_events_steps`) are written by a fresh converter as
/// `[` followed by their JSON text.
pub proof fn lemma_json_of_array(events: Seq<(Seq<ValuePosition>, Value)>)
    requires
        nest_steps(seq![(Seq::<ValuePosition>::empty(), Some(0nat))], events),
    ensures
        json_run(Set::<Seq<char>>::empty(), seq![(Seq::<ValuePosition>::empty(), Value::StartArray)] + events).0
            == "["@ + json_events(seq![(false, false)], events),
{
    let root: Seq<OpenEntry> = seq![(Seq::<ValuePosition>::empty(), Some(0nat))];
    let none = Set::<Seq<char>>::empty();
    assert(json_ready(root, none));
    lemma_json_events(root, none, events);
    assert(json_flags(root, none) =~= seq![(false, false)]);
    let open: Seq<(Seq<ValuePosition>, Value)> = seq![(Seq::<ValuePosition>::empty(), Value::StartArray)];
    lemma_json_run_concat(none, open, events);
    lemma_json_run_one(none, (Seq::<ValuePosition>::empty(), Value::StartArray));
}

} // verus!
