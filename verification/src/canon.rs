//! Canonical byte encodings of the portable records. A record's encoding
//! is its content: content keys, staleness checks and copies are all stated
//! over these encodings.
use vstd::prelude::*;
use crate::codec::{
    field, flag_bytes, frame, lemma_frame_push, num_bytes, push_field, push_flag, push_num,
    push_text, text_bytes,
};
use crate::order::{key_order, key_places, pair_keys};
use crate::records::{
    OperationMode, Operation, Preview, ProjectFingerprint, ProviderCard, SanitizedInventory,
    Symbol, Target, Value,
};

verus! {

/// A symbol: its text.
pub open spec fn symbol_code(s: Symbol) -> Seq<u8> {
    text_bytes(s@)
}

/// Symbols in order, one field each.
pub open spec fn symbols_code(v: Seq<Symbol>) -> Seq<u8> {
    frame(v.map_values(|s: Symbol| symbol_code(s)))
}

/// A label and its value.
pub open spec fn label_code(p: (Symbol, Symbol)) -> Seq<u8> {
    frame(seq![symbol_code(p.0), symbol_code(p.1)])
}

/// Labels read as a map from label to value, one field per label in label
/// order; where a label occurs twice, its last value stands.
pub open spec fn labels_code(v: Seq<(Symbol, Symbol)>) -> Seq<u8> {
    frame(key_order(pair_keys(v)).map_values(|i: int| label_code(v[i])))
}

/// A target: version, id, labels.
pub open spec fn target_code(t: Target) -> Seq<u8> {
    frame(seq![num_bytes(t.version as u64), symbol_code(t.id), labels_code(t.labels@)])
}

/// Targets in order, one field each.
pub open spec fn targets_code(v: Seq<Target>) -> Seq<u8> {
    frame(v.map_values(|t: Target| target_code(t)))
}

/// A provider card: version, provider, capabilities, target bound.
pub open spec fn card_code(c: ProviderCard) -> Seq<u8> {
    frame(
        seq![
            num_bytes(c.version as u64),
            symbol_code(c.provider),
            symbols_code(c.capabilities@),
            num_bytes(c.max_targets as u64),
        ],
    )
}

/// An inventory: version, revision, targets.
pub open spec fn inventory_code(i: SanitizedInventory) -> Seq<u8> {
    frame(seq![num_bytes(i.version as u64), num_bytes(i.revision), targets_code(i.targets@)])
}

/// A project fingerprint: version, digest.
pub open spec fn fingerprint_code(p: ProjectFingerprint) -> Seq<u8> {
    frame(seq![num_bytes(p.version as u64), p.digest@])
}

/// An operation mode: 1 for a change, 0 for an inspection.
pub open spec fn mode_code(m: OperationMode) -> Seq<u8> {
    flag_bytes(m == OperationMode::Change)
}

/// A shaped value: a tag, then its data.
pub open spec fn value_code(v: Value) -> Seq<u8>
    decreases v,
{
    match v {
        Value::Bool(b) => frame(seq![seq![0u8], flag_bytes(b)]),
        Value::Integer(i) => frame(seq![seq![1u8], num_bytes(i as u64)]),
        Value::Text(s) => frame(seq![seq![2u8], text_bytes(s@)]),
        Value::Symbol(s) => frame(seq![seq![3u8], symbol_code(s)]),
        Value::List(items) => frame(seq![seq![4u8], frame(value_codes(items@))]),
    }
}

/// Values in order.
pub open spec fn value_codes(vs: Seq<Value>) -> Seq<Seq<u8>>
    decreases vs,
{
    if vs.len() == 0 {
        seq![]
    } else {
        value_codes(vs.drop_last()).push(value_code(vs.last()))
    }
}

/// A parameter: its name and value.
pub open spec fn parameter_code(p: (Symbol, Value)) -> Seq<u8> {
    frame(seq![symbol_code(p.0), value_code(p.1)])
}

/// Parameters read as a map from name to value, one field per name in name
/// order; where a name occurs twice, its last value stands.
pub open spec fn parameters_code(v: Seq<(Symbol, Value)>) -> Seq<u8> {
    frame(key_order(pair_keys(v)).map_values(|i: int| parameter_code(v[i])))
}

/// An operation: version, exposure, target, parameters, mode.
pub open spec fn operation_code(o: Operation) -> Seq<u8> {
    frame(
        seq![
            num_bytes(o.version as u64),
            symbol_code(o.exposure),
            symbol_code(o.target),
            parameters_code(o.parameters@),
            mode_code(o.mode),
        ],
    )
}

/// A preview: changed targets, notices.
pub open spec fn preview_code(p: Preview) -> Seq<u8> {
    frame(seq![num_bytes(p.changed_targets as u64), symbols_code(p.notices@)])
}

/// Appends the frame of `fs`, given the frame so far of `fs.drop_last()`.
pub proof fn lemma_frame_step<A>(v: Seq<A>, i: int, f: spec_fn(A) -> Seq<u8>)
    requires
        0 <= i < v.len(),
    ensures
        frame(v.take(i + 1).map_values(f)) == frame(v.take(i).map_values(f)) + field(f(v[i])),
{
    assert(v.take(i + 1).map_values(f) =~= v.take(i).map_values(f).push(f(v[i])));
    lemma_frame_push(v.take(i).map_values(f), f(v[i]));
}

/// The encoding of `s`.
pub fn encode_symbol(s: &Symbol) -> (r: Vec<u8>)
    ensures
        r@ == symbol_code(*s),
{
    let b = s.as_str().as_bytes();
    let mut out: Vec<u8> = Vec::new();
    let mut i: usize = 0;
    while i < b.len()
        invariant
            i <= b@.len(),
            out@ == b@.take(i as int),
        decreases b.len() - i,
    {
        out.push(b[i]);
        proof {
            assert(b@.take(i + 1) =~= b@.take(i as int).push(b@[i as int]));
        }
        i = i + 1;
    }
    assert(b@.take(b@.len() as int) =~= b@);
    out
}

/// The encoding of `v`.
pub fn encode_symbols(v: &Vec<Symbol>) -> (r: Vec<u8>)
    ensures
        r@ == symbols_code(v@),
{
    let ghost f = |s: Symbol| symbol_code(s);
    let mut out: Vec<u8> = Vec::new();
    let mut i: usize = 0;
    assert(v@.take(0).map_values(f) =~= seq![]);
    assert(frame(seq![]) =~= seq![]);
    while i < v.len()
        invariant
            i <= v@.len(),
            f == (|s: Symbol| symbol_code(s)),
            out@ == frame(v@.take(i as int).map_values(f)),
        decreases v.len() - i,
    {
        let b = encode_symbol(&v[i]);
        push_field(&mut out, b.as_slice());
        proof {
            lemma_frame_step(v@, i as int, f);
        }
        i = i + 1;
    }
    assert(v@.take(v@.len() as int) =~= v@);
    out
}

/// The encoding of `v`.
pub fn encode_labels(v: &Vec<(Symbol, Symbol)>) -> (r: Vec<u8>)
    ensures
        r@ == labels_code(v@),
{
    let places = key_places(v);
    let ghost order = key_order(pair_keys(v@));
    let ghost f = |i: int| label_code(v@[i]);
    let mut out: Vec<u8> = Vec::new();
    let mut k: usize = 0;
    assert(order.take(0).map_values(f) =~= seq![]);
    assert(frame(seq![]) =~= seq![]);
    while k < places.len()
        invariant
            k <= places@.len(),
            places@.map_values(|x: usize| x as int) == order,
            forall|j: int| 0 <= j < places@.len() ==> #[trigger] places@[j] < v@.len(),
            f == (|i: int| label_code(v@[i])),
            out@ == frame(order.take(k as int).map_values(f)),
        decreases places.len() - k,
    {
        let i = places[k];
        assert(order[k as int] == i as int);
        let mut item: Vec<u8> = Vec::new();
        let a = encode_symbol(&v[i].0);
        let b = encode_symbol(&v[i].1);
        push_field(&mut item, a.as_slice());
        push_field(&mut item, b.as_slice());
        proof {
            lemma_frame_push(seq![], a@);
            lemma_frame_push(seq![a@], b@);
            assert(seq![a@].push(b@) =~= seq![a@, b@]);
            assert(seq![].push(a@) =~= seq![a@]);
            assert(frame(seq![]) =~= seq![]);
        }
        push_field(&mut out, item.as_slice());
        proof {
            lemma_frame_step(order, k as int, f);
        }
        k = k + 1;
    }
    assert(order.take(order.len() as int) =~= order);
    out
}

/// The frame of the given fields.
pub fn frame_of(fs: &Vec<Vec<u8>>) -> (r: Vec<u8>)
    ensures
        r@ == frame(fs@.map_values(|f: Vec<u8>| f@)),
{
    let ghost g = |f: Vec<u8>| f@;
    let mut out: Vec<u8> = Vec::new();
    let mut i: usize = 0;
    assert(fs@.take(0).map_values(g) =~= seq![]);
    assert(frame(seq![]) =~= seq![]);
    while i < fs.len()
        invariant
            i <= fs@.len(),
            g == (|f: Vec<u8>| f@),
            out@ == frame(fs@.take(i as int).map_values(g)),
        decreases fs.len() - i,
    {
        push_field(&mut out, fs[i].as_slice());
        proof {
            lemma_frame_step(fs@, i as int, g);
        }
        i = i + 1;
    }
    assert(fs@.take(fs@.len() as int) =~= fs@);
    out
}

/// The eight big-endian bytes of `n`.
pub fn encode_num(n: u64) -> (r: Vec<u8>)
    ensures
        r@ == num_bytes(n),
{
    let mut b: Vec<u8> = Vec::new();
    crate::codec::push_be(&mut b, n, 8);
    b
}

/// One byte: 1 for true, 0 for false.
pub fn encode_flag(v: bool) -> (r: Vec<u8>)
    ensures
        r@ == flag_bytes(v),
{
    let mut b: Vec<u8> = Vec::new();
    b.push(if v { 1u8 } else { 0u8 });
    assert(b@ =~= flag_bytes(v));
    b
}

/// The UTF-8 bytes of `s`.
pub fn encode_text(s: &str) -> (r: Vec<u8>)
    ensures
        r@ == text_bytes(s@),
{
    let b = s.as_bytes();
    let mut out: Vec<u8> = Vec::new();
    let mut i: usize = 0;
    while i < b.len()
        invariant
            i <= b@.len(),
            out@ == b@.take(i as int),
        decreases b.len() - i,
    {
        out.push(b[i]);
        proof {
            assert(b@.take(i + 1) =~= b@.take(i as int).push(b@[i as int]));
        }
        i = i + 1;
    }
    assert(b@.take(b@.len() as int) =~= b@);
    out
}

/// The encoding of `t`.
pub fn encode_target(t: &Target) -> (r: Vec<u8>)
    ensures
        r@ == target_code(*t),
{
    let fs = vec![encode_num(t.version as u64), encode_symbol(&t.id), encode_labels(&t.labels)];
    let r = frame_of(&fs);
    assert(fs@.map_values(|f: Vec<u8>| f@) =~= seq![
        num_bytes(t.version as u64),
        symbol_code(t.id),
        labels_code(t.labels@),
    ]);
    r
}

/// The encoding of `v`.
pub fn encode_targets(v: &Vec<Target>) -> (r: Vec<u8>)
    ensures
        r@ == targets_code(v@),
{
    let ghost f = |t: Target| target_code(t);
    let mut out: Vec<u8> = Vec::new();
    let mut i: usize = 0;
    assert(v@.take(0).map_values(f) =~= seq![]);
    assert(frame(seq![]) =~= seq![]);
    while i < v.len()
        invariant
            i <= v@.len(),
            f == (|t: Target| target_code(t)),
            out@ == frame(v@.take(i as int).map_values(f)),
        decreases v.len() - i,
    {
        let b = encode_target(&v[i]);
        push_field(&mut out, b.as_slice());
        proof {
            lemma_frame_step(v@, i as int, f);
        }
        i = i + 1;
    }
    assert(v@.take(v@.len() as int) =~= v@);
    out
}

/// The encoding of `c`.
pub fn encode_card(c: &ProviderCard) -> (r: Vec<u8>)
    ensures
        r@ == card_code(*c),
{
    let fs = vec![
        encode_num(c.version as u64),
        encode_symbol(&c.provider),
        encode_symbols(&c.capabilities),
        encode_num(c.max_targets as u64),
    ];
    let r = frame_of(&fs);
    assert(fs@.map_values(|f: Vec<u8>| f@) =~= seq![
        num_bytes(c.version as u64),
        symbol_code(c.provider),
        symbols_code(c.capabilities@),
        num_bytes(c.max_targets as u64),
    ]);
    r
}

/// The encoding of `i`.
pub fn encode_inventory(i: &SanitizedInventory) -> (r: Vec<u8>)
    ensures
        r@ == inventory_code(*i),
{
    let fs = vec![encode_num(i.version as u64), encode_num(i.revision), encode_targets(&i.targets)];
    let r = frame_of(&fs);
    assert(fs@.map_values(|f: Vec<u8>| f@) =~= seq![
        num_bytes(i.version as u64),
        num_bytes(i.revision),
        targets_code(i.targets@),
    ]);
    r
}

/// The encoding of `p`.
pub fn encode_fingerprint(p: &ProjectFingerprint) -> (r: Vec<u8>)
    ensures
        r@ == fingerprint_code(*p),
{
    let mut d: Vec<u8> = Vec::new();
    let mut i: usize = 0;
    while i < 32
        invariant
            i <= 32,
            d@ == p.digest@.take(i as int),
        decreases 32 - i,
    {
        d.push(p.digest[i]);
        proof {
            assert(p.digest@.take(i + 1) =~= p.digest@.take(i as int).push(p.digest@[i as int]));
        }
        i = i + 1;
    }
    assert(p.digest@.take(32) =~= p.digest@);
    let fs = vec![encode_num(p.version as u64), d];
    let r = frame_of(&fs);
    assert(fs@.map_values(|f: Vec<u8>| f@) =~= seq![num_bytes(p.version as u64), p.digest@]);
    r
}

fn tag(t: u8) -> (r: Vec<u8>)
    ensures
        r@ == seq![t],
{
    let mut b: Vec<u8> = Vec::new();
    b.push(t);
    assert(b@ =~= seq![t]);
    b
}

/// The encoding of `v`.
pub fn encode_value(v: &Value) -> (r: Vec<u8>)
    ensures
        r@ == value_code(*v),
    decreases v,
{
    let fs = match v {
        Value::Bool(b) => vec![tag(0), encode_flag(*b)],
        Value::Integer(i) => vec![tag(1), encode_num(*i as u64)],
        Value::Text(s) => vec![tag(2), encode_text(s.as_str())],
        Value::Symbol(s) => vec![tag(3), encode_symbol(s)],
        Value::List(items) => {
            let mut parts: Vec<Vec<u8>> = Vec::new();
            let mut i: usize = 0;
            while i < items.len()
                invariant
                    i <= items@.len(),
                    *v == Value::List(*items),
                    parts@.map_values(|f: Vec<u8>| f@) == value_codes(items@.take(i as int)),
                decreases items.len() - i,
            {
                proof {
                    assert(*v == Value::List(*items));
                    assert(decreases_to!(*v => v->List_0));
                    assert(v->List_0 == *items);
                    assert(decreases_to!(*items => items@));
                    assert(decreases_to!(items@ => items@[i as int]));
                }
                let b = encode_value(&items[i]);
                parts.push(b);
                proof {
                    assert(items@.take(i + 1).drop_last() =~= items@.take(i as int));
                    assert(parts@.map_values(|f: Vec<u8>| f@) =~= value_codes(items@.take(i as int)).push(b@));
                }
                i = i + 1;
            }
            assert(items@.take(items@.len() as int) =~= items@);
            vec![tag(4), frame_of(&parts)]
        },
    };
    let r = frame_of(&fs);
    proof {
        match v {
            Value::Bool(b) => {
                assert(fs@.map_values(|f: Vec<u8>| f@) =~= seq![seq![0u8], flag_bytes(*b)]);
            },
            Value::Integer(i) => {
                assert(fs@.map_values(|f: Vec<u8>| f@) =~= seq![seq![1u8], num_bytes(*i as u64)]);
            },
            Value::Text(s) => {
                assert(fs@.map_values(|f: Vec<u8>| f@) =~= seq![seq![2u8], text_bytes(s@)]);
            },
            Value::Symbol(s) => {
                assert(fs@.map_values(|f: Vec<u8>| f@) =~= seq![seq![3u8], symbol_code(*s)]);
            },
            Value::List(items) => {
                assert(fs@.map_values(|f: Vec<u8>| f@) =~= seq![seq![4u8], frame(value_codes(items@))]);
            },
        }
    }
    r
}

/// The encoding of `v`.
pub fn encode_parameters(v: &Vec<(Symbol, Value)>) -> (r: Vec<u8>)
    ensures
        r@ == parameters_code(v@),
{
    let places = key_places(v);
    let ghost order = key_order(pair_keys(v@));
    let ghost f = |i: int| parameter_code(v@[i]);
    let mut out: Vec<u8> = Vec::new();
    let mut k: usize = 0;
    assert(order.take(0).map_values(f) =~= seq![]);
    assert(frame(seq![]) =~= seq![]);
    while k < places.len()
        invariant
            k <= places@.len(),
            places@.map_values(|x: usize| x as int) == order,
            forall|j: int| 0 <= j < places@.len() ==> #[trigger] places@[j] < v@.len(),
            f == (|i: int| parameter_code(v@[i])),
            out@ == frame(order.take(k as int).map_values(f)),
        decreases places.len() - k,
    {
        let i = places[k];
        assert(order[k as int] == i as int);
        let fs = vec![encode_symbol(&v[i].0), encode_value(&v[i].1)];
        let b = frame_of(&fs);
        assert(fs@.map_values(|g: Vec<u8>| g@) =~= seq![symbol_code(v@[i as int].0), value_code(v@[i as int].1)]);
        push_field(&mut out, b.as_slice());
        proof {
            lemma_frame_step(order, k as int, f);
        }
        k = k + 1;
    }
    assert(order.take(order.len() as int) =~= order);
    out
}

/// The encoding of `o`.
pub fn encode_operation(o: &Operation) -> (r: Vec<u8>)
    ensures
        r@ == operation_code(*o),
{
    let change = match o.mode {
        OperationMode::Change => true,
        OperationMode::Inspect => false,
    };
    let fs = vec![
        encode_num(o.version as u64),
        encode_symbol(&o.exposure),
        encode_symbol(&o.target),
        encode_parameters(&o.parameters),
        encode_flag(change),
    ];
    let r = frame_of(&fs);
    assert(fs@.map_values(|f: Vec<u8>| f@) =~= seq![
        num_bytes(o.version as u64),
        symbol_code(o.exposure),
        symbol_code(o.target),
        parameters_code(o.parameters@),
        mode_code(o.mode),
    ]);
    r
}

/// The encoding of `p`.
pub fn encode_preview(p: &Preview) -> (r: Vec<u8>)
    ensures
        r@ == preview_code(*p),
{
    let fs = vec![encode_num(p.changed_targets as u64), encode_symbols(&p.notices)];
    let r = frame_of(&fs);
    assert(fs@.map_values(|f: Vec<u8>| f@) =~= seq![
        num_bytes(p.changed_targets as u64),
        symbols_code(p.notices@),
    ]);
    r
}

} // verus!
