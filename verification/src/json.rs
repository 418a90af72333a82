//! JSON text of what a training came to.
use vstd::prelude::*;
use vstd::string::StringExecFns;

use crate::number::Real;
use crate::storage::{BucketMean, HorizonMetrics};
use crate::text::push_integer;
#[allow(unused_imports)]
use crate::text::integer_text;

verus! {

/// A digit to the base of sixteen.
pub open spec fn hex_char(d: int) -> char {
    if d == 0 {
        '0'
    } else if d == 1 {
        '1'
    } else if d == 2 {
        '2'
    } else if d == 3 {
        '3'
    } else if d == 4 {
        '4'
    } else if d == 5 {
        '5'
    } else if d == 6 {
        '6'
    } else if d == 7 {
        '7'
    } else if d == 8 {
        '8'
    } else if d == 9 {
        '9'
    } else if d == 10 {
        'a'
    } else if d == 11 {
        'b'
    } else if d == 12 {
        'c'
    } else if d == 13 {
        'd'
    } else if d == 14 {
        'e'
    } else {
        'f'
    }
}

/// A character as it stands within quotes: the quote, the backslash and the
/// characters before the space are escaped.
pub open spec fn escaped(c: char) -> Seq<char> {
    if c == '"' {
        seq!['\\', '"']
    } else if c == '\\' {
        seq!['\\', '\\']
    } else if c as int == 8 {
        seq!['\\', 'b']
    } else if c as int == 9 {
        seq!['\\', 't']
    } else if c as int == 10 {
        seq!['\\', 'n']
    } else if c as int == 12 {
        seq!['\\', 'f']
    } else if c as int == 13 {
        seq!['\\', 'r']
    } else if (c as int) < 32 {
        seq!['\\', 'u', '0', '0', hex_char(c as int / 16), hex_char(c as int % 16)]
    } else {
        seq![c]
    }
}

pub open spec fn all_escaped(text: Seq<char>) -> Seq<char>
    decreases text.len(),
{
    if text.len() == 0 {
        Seq::empty()
    } else {
        all_escaped(text.drop_last()) + escaped(text.last())
    }
}

/// A text in quotes.
pub open spec fn quoted_text(text: Seq<char>) -> Seq<char> {
    seq!['"'] + all_escaped(text) + seq!['"']
}

/// Makes a `serde_json::Value` of the text with `Value::from`, and writes it
/// with its `to_string`.
///
/// Claimed: the text comes out in quotes. A quote and a backslash get a
/// backslash in front; backspace, tab, line feed, form feed and carriage return
/// become `\b`, `\t`, `\n`, `\f` and `\r`; every other character before the
/// space becomes `\u00` and its two digits to the base of sixteen, in small
/// letters; all others stay as they are.
#[verifier::external_body]
pub(crate) fn quoted(text: &str) -> (r: String)
    ensures
        r@ == quoted_text(text@),
{
    serde_json::Value::from(text).to_string()
}

/// The parts in a row, with commas between them.
pub open spec fn listed(parts: Seq<Seq<char>>) -> Seq<char>
    decreases parts.len(),
{
    if parts.len() == 0 {
        Seq::empty()
    } else if parts.len() == 1 {
        parts[0]
    } else {
        listed(parts.drop_last()) + ","@ + parts.last()
    }
}

pub open spec fn object_text(members: Seq<Seq<char>>) -> Seq<char> {
    "{"@ + listed(members) + "}"@
}

pub open spec fn array_text(items: Seq<Seq<char>>) -> Seq<char> {
    "["@ + listed(items) + "]"@
}

/// A member of an object.
pub open spec fn member_text(key: Seq<char>, value: Seq<char>) -> Seq<char> {
    quoted_text(key) + ":"@ + value
}

pub open spec fn bool_text(b: bool) -> Seq<char> {
    if b {
        "true"@
    } else {
        "false"@
    }
}

/// A number that may not be there.
pub open spec fn number_text<T: Real>(x: Option<T>) -> Seq<char> {
    match x {
        Some(v) => v.json_spec()@,
        None => "null"@,
    }
}

/// What the texts hold.
pub open spec fn texts(parts: Seq<String>) -> Seq<Seq<char>> {
    parts.map_values(|s: String| s@)
}

fn push_listed(out: &mut String, parts: &Vec<String>)
    ensures
        final(out)@ == old(out)@ + listed(texts(parts@)),
{
    let ghost all = texts(parts@);
    let mut i: usize = 0;
    assert(all.take(0) =~= Seq::<Seq<char>>::empty());
    assert(out@ =~= old(out)@ + listed(all.take(0)));
    while i < parts.len()
        invariant
            0 <= i <= parts@.len(),
            all == texts(parts@),
            out@ == old(out)@ + listed(all.take(i as int)),
        decreases parts@.len() - i,
    {
        proof {
            assert(all.take(i + 1).drop_last() =~= all.take(i as int));
            assert(all.take(i + 1).last() == parts@[i as int]@);
        }
        if i > 0 {
            out.append(",");
        }
        out.append(parts[i].as_str());
        assert(out@ =~= old(out)@ + listed(all.take(i + 1)));
        i = i + 1;
    }
    assert(all.take(i as int) =~= all);
}

fn object(members: &Vec<String>) -> (r: String)
    ensures
        r@ == object_text(texts(members@)),
{
    let mut out = "{".to_string();
    push_listed(&mut out, members);
    out.append("}");
    out
}

fn array(items: &Vec<String>) -> (r: String)
    ensures
        r@ == array_text(texts(items@)),
{
    let mut out = "[".to_string();
    push_listed(&mut out, items);
    out.append("]");
    out
}

fn member(key: &str, value: &str) -> (r: String)
    ensures
        r@ == member_text(key@, value@),
{
    let mut out = quoted(key);
    out.append(":");
    out.append(value);
    out
}

fn integer(n: i64) -> (r: String)
    ensures
        r@ == integer_text(n as int),
{
    let mut out = "".to_string();
    proof {
        reveal_strlit("");
    }
    push_integer(&mut out, n);
    assert(out@ =~= integer_text(n as int));
    out
}

fn number<T: Real>(x: Option<T>) -> (r: String)
    ensures
        r@ == number_text(x),
{
    match x {
        Some(v) => v.json(),
        None => "null".to_string(),
    }
}

/// A bucket of predictions as an object.
pub open spec fn bucket_text<T: Real>(b: BucketMean<T>) -> Seq<char> {
    object_text(
        seq![
            member_text("hi"@, b.hi.json_spec()@),
            member_text("lo"@, b.lo.json_spec()@),
            member_text("mean_actual"@, b.mean_actual.json_spec()@),
            member_text("n"@, integer_text(b.n as int)),
        ],
    )
}

/// The metrics of a horizon as an object, its members in the order of their
/// names.
pub open spec fn horizon_text<T: Real>(m: HorizonMetrics<T>) -> Seq<char> {
    object_text(
        seq![
            member_text("buckets"@, buckets_text(m.buckets@)),
            member_text("coverage"@, m.coverage.json_spec()@),
            member_text("dir_acc"@, number_text(m.dir_acc)),
            member_text("dir_hits"@, integer_text(m.dir_hits as int)),
            member_text("dir_n"@, integer_text(m.dir_n as int)),
            member_text("horizon"@, quoted_text(m.horizon@)),
            member_text("ic"@, number_text(m.ic)),
            member_text("mae"@, number_text(m.mae)),
            member_text("n_total"@, integer_text(m.n_total as int)),
            member_text("n_valid"@, integer_text(m.n_valid as int)),
            member_text("rmse"@, number_text(m.rmse)),
        ],
    )
}

pub open spec fn buckets_text<T: Real>(buckets: Seq<BucketMean<T>>) -> Seq<char> {
    array_text(buckets.map_values(|b: BucketMean<T>| bucket_text(b)))
}

/// The metrics of the horizons as an array.
pub open spec fn metrics_text<T: Real>(m: Seq<HorizonMetrics<T>>) -> Seq<char> {
    array_text(m.map_values(|h: HorizonMetrics<T>| horizon_text(h)))
}

/// How a candidate was trained.
pub open spec fn params_text<T: Real>(
    lambda: T,
    n_train: int,
    n_valid: int,
    prior_version: Seq<char>,
) -> Seq<char> {
    object_text(
        seq![
            member_text("lambda"@, lambda.json_spec()@),
            member_text("n_train"@, integer_text(n_train)),
            member_text("n_valid"@, integer_text(n_valid)),
            member_text("prior_version"@, quoted_text(prior_version)),
        ],
    )
}

/// How a candidate was judged against the current model.
pub open spec fn decision_text<T: Real>(
    current: Seq<HorizonMetrics<T>>,
    candidate: Seq<HorizonMetrics<T>>,
    promote: bool,
    reason: Seq<char>,
) -> Seq<char> {
    object_text(
        seq![
            member_text("candidate"@, metrics_text(candidate)),
            member_text("current"@, metrics_text(current)),
            member_text("promote"@, bool_text(promote)),
            member_text("reason"@, quoted_text(reason)),
        ],
    )
}

fn bucket_json<T: Real>(b: &BucketMean<T>) -> (r: String)
    ensures
        r@ == bucket_text(*b),
{
    let members = vec![
        member("hi", b.hi.json().as_str()),
        member("lo", b.lo.json().as_str()),
        member("mean_actual", b.mean_actual.json().as_str()),
        member("n", integer(b.n).as_str()),
    ];
    assert(texts(members@) =~= seq![
        member_text("hi"@, b.hi.json_spec()@),
        member_text("lo"@, b.lo.json_spec()@),
        member_text("mean_actual"@, b.mean_actual.json_spec()@),
        member_text("n"@, integer_text(b.n as int)),
    ]);
    object(&members)
}

fn buckets_json<T: Real>(buckets: &Vec<BucketMean<T>>) -> (r: String)
    ensures
        r@ == buckets_text(buckets@),
{
    let mut items: Vec<String> = Vec::new();
    for i in 0..buckets.len()
        invariant
            items@.len() == i,
            forall|k: int| 0 <= k < i ==> (#[trigger] items@[k])@ == bucket_text(buckets@[k]),
    {
        items.push(bucket_json(&buckets[i]));
    }
    assert(texts(items@) =~= buckets@.map_values(|b: BucketMean<T>| bucket_text(b)));
    array(&items)
}

/// The metrics of a horizon as an object.
pub fn horizon_json<T: Real>(m: &HorizonMetrics<T>) -> (r: String)
    ensures
        r@ == horizon_text(*m),
{
    let members = vec![
        member("buckets", buckets_json(&m.buckets).as_str()),
        member("coverage", m.coverage.json().as_str()),
        member("dir_acc", number(m.dir_acc).as_str()),
        member("dir_hits", integer(m.dir_hits).as_str()),
        member("dir_n", integer(m.dir_n).as_str()),
        member("horizon", quoted(m.horizon.as_str()).as_str()),
        member("ic", number(m.ic).as_str()),
        member("mae", number(m.mae).as_str()),
        member("n_total", integer(m.n_total).as_str()),
        member("n_valid", integer(m.n_valid).as_str()),
        member("rmse", number(m.rmse).as_str()),
    ];
    assert(texts(members@) =~= seq![
        member_text("buckets"@, buckets_text(m.buckets@)),
        member_text("coverage"@, m.coverage.json_spec()@),
        member_text("dir_acc"@, number_text(m.dir_acc)),
        member_text("dir_hits"@, integer_text(m.dir_hits as int)),
        member_text("dir_n"@, integer_text(m.dir_n as int)),
        member_text("horizon"@, quoted_text(m.horizon@)),
        member_text("ic"@, number_text(m.ic)),
        member_text("mae"@, number_text(m.mae)),
        member_text("n_total"@, integer_text(m.n_total as int)),
        member_text("n_valid"@, integer_text(m.n_valid as int)),
        member_text("rmse"@, number_text(m.rmse)),
    ]);
    object(&members)
}

fn metrics_json<T: Real>(m: &[HorizonMetrics<T>; 3]) -> (r: String)
    ensures
        r@ == metrics_text(m@),
{
    let items = vec![horizon_json(&m[0]), horizon_json(&m[1]), horizon_json(&m[2])];
    assert(texts(items@) =~= m@.map_values(|h: HorizonMetrics<T>| horizon_text(h)));
    array(&items)
}

/// How a candidate was trained, as an object.
pub fn params_json<T: Real>(lambda: T, n_train: i64, n_valid: i64, prior_version: &str) -> (r: String)
    ensures
        r@ == params_text(lambda, n_train as int, n_valid as int, prior_version@),
{
    let members = vec![
        member("lambda", lambda.json().as_str()),
        member("n_train", integer(n_train).as_str()),
        member("n_valid", integer(n_valid).as_str()),
        member("prior_version", quoted(prior_version).as_str()),
    ];
    assert(texts(members@) =~= seq![
        member_text("lambda"@, lambda.json_spec()@),
        member_text("n_train"@, integer_text(n_train as int)),
        member_text("n_valid"@, integer_text(n_valid as int)),
        member_text("prior_version"@, quoted_text(prior_version@)),
    ]);
    object(&members)
}

/// How a candidate was judged against the current model, as an object.
pub fn decision_json<T: Real>(
    current: &[HorizonMetrics<T>; 3],
    candidate: &[HorizonMetrics<T>; 3],
    promote: bool,
    reason: &str,
) -> (r: String)
    ensures
        r@ == decision_text(current@, candidate@, promote, reason@),
{
    let members = vec![
        member("candidate", metrics_json(candidate).as_str()),
        member("current", metrics_json(current).as_str()),
        member(
            "promote",
            if promote {
                "true"
            } else {
                "false"
            },
        ),
        member("reason", quoted(reason).as_str()),
    ];
    assert(texts(members@) =~= seq![
        member_text("candidate"@, metrics_text(candidate@)),
        member_text("current"@, metrics_text(current@)),
        member_text("promote"@, bool_text(promote)),
        member_text("reason"@, quoted_text(reason@)),
    ]);
    object(&members)
}

} // verus!
