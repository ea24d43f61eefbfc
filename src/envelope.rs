//! The call encoder: envelopes of a call, in positional and named form, and
//! their canonical bytes.
use crate::descriptor::{explicit_params, method_wf, MethodDescriptor, MethodView};
use crate::value::{
    copy_value, entries_bytes, entries_in_range, entries_view, items_bytes, lemma_entries_unique,
    lemma_items_unique, lemma_text_unique, parse_entries, parse_items, parse_literal, parse_text_at,
    text_bytes, value_in_range, values_in_range, values_view, write_entries, write_items, write_text, lemma_view_in_range, Value,
    ValueView,
};
use vstd::prelude::*;

verus! {

/// The arguments of a call: in declared order, or by wire name.
#[derive(Clone, Debug, PartialEq)]
pub enum Params {
    Positional(Vec<Value>),
    Named(Vec<(String, Value)>),
}

/// One call on the wire.
#[derive(Clone, Debug, PartialEq)]
pub struct CallEnvelope {
    pub method: String,
    pub params: Params,
}

pub enum ParamsView {
    Positional(Seq<ValueView>),
    Named(Seq<(Seq<char>, ValueView)>),
}

pub struct EnvelopeView {
    pub method: Seq<char>,
    pub params: ParamsView,
}

impl View for Params {
    type V = ParamsView;

    open spec fn view(&self) -> ParamsView {
        match self {
            Params::Positional(vs) => ParamsView::Positional(values_view(vs@)),
            Params::Named(es) => ParamsView::Named(entries_view(es@)),
        }
    }
}

impl View for CallEnvelope {
    type V = EnvelopeView;

    open spec fn view(&self) -> EnvelopeView {
        EnvelopeView { method: self.method@, params: self.params@ }
    }
}

/// The positional envelope of a call: the arguments in declared order.
pub open spec fn positional_envelope(m: MethodView, args: Seq<ValueView>) -> EnvelopeView {
    EnvelopeView { method: m.name, params: ParamsView::Positional(args) }
}

/// The named envelope of a call: each explicit parameter's wire name with its argument.
pub open spec fn named_envelope(m: MethodView, args: Seq<ValueView>) -> EnvelopeView {
    EnvelopeView {
        method: m.name,
        params: ParamsView::Named(
            Seq::new(args.len(), |i: int| (explicit_params(m)[i].name, args[i])),
        ),
    }
}

/// Encodes a call with its arguments in declared order; the implicit caller
/// slot, if the method has one, is not part of it.
pub fn encode_positional(m: &MethodDescriptor, args: &Vec<Value>) -> (r: CallEnvelope)
    requires
        method_wf(m@),
        args@.len() == explicit_params(m@).len(),
    ensures
        r@ == positional_envelope(m@, values_view(args@)),
{
    let mut vs: Vec<Value> = Vec::new();
    let mut i: usize = 0;
    while i < args.len()
        invariant
            i <= args@.len(),
            values_view(vs@) =~= values_view(args@).subrange(0, i as int),
        decreases args@.len() - i,
    {
        let ghost prev = vs@;
        vs.push(copy_value(&args[i]));
        proof {
            assert(vs@ =~= prev.push(vs@.last()));
            assert(values_view(vs@) =~= values_view(prev).push(args@[i as int]@));
            assert(values_view(args@).subrange(0, i + 1) =~= values_view(args@).subrange(0, i as int).push(
                args@[i as int]@,
            ));
        }
        i = i + 1;
    }
    assert(values_view(args@).subrange(0, args@.len() as int) =~= values_view(args@));
    CallEnvelope { method: m.name.clone(), params: Params::Positional(vs) }
}

/// Encodes a call as a mapping from each explicit parameter's wire name to its
/// argument, in declared order.
pub fn encode_named(m: &MethodDescriptor, args: &Vec<Value>) -> (r: CallEnvelope)
    requires
        method_wf(m@),
        args@.len() == explicit_params(m@).len(),
    ensures
        r@ == named_envelope(m@, values_view(args@)),
{
    let off: usize = if m.requires_caller_identity {
        1
    } else {
        0
    };
    let ghost target = named_envelope(m@, values_view(args@));
    let ghost tparams = match target.params {
        ParamsView::Named(es) => es,
        _ => Seq::empty(),
    };
    let mut es: Vec<(String, Value)> = Vec::new();
    let mut i: usize = 0;
    while i < args.len()
        invariant
            i <= args@.len(),
            args@.len() == explicit_params(m@).len(),
            off as int == (if m@.requires_caller_identity { 1int } else { 0int }),
            m@.params.len() == off + args@.len(),
            tparams == Seq::new(args@.len() as nat, |k: int| (explicit_params(m@)[k].name, values_view(args@)[k])),
            entries_view(es@) =~= tparams.subrange(0, i as int),
        decreases args@.len() - i,
    {
        assert(explicit_params(m@)[i as int] == m@.params[off + i]);
        assert(m@.params[off + i] == m.parameters@[off + i]@);
        let ghost prev = es@;
        es.push((m.parameters[off + i].name.clone(), copy_value(&args[i])));
        proof {
            assert(entries_view(es@) =~= entries_view(prev).push(tparams[i as int]));
            assert(tparams.subrange(0, i + 1) =~= tparams.subrange(0, i as int).push(tparams[i as int]));
        }
        i = i + 1;
    }
    assert(tparams.subrange(0, args@.len() as int) =~= tparams);
    CallEnvelope { method: m.name.clone(), params: Params::Named(es) }
}

// ---------------------------------------------------------------------------
// Canonical bytes
/// `{"method":`
pub open spec fn method_prefix() -> Seq<u8> {
    seq![123u8, 34u8, 109u8, 101u8, 116u8, 104u8, 111u8, 100u8, 34u8, 58u8]
}

/// `,"params":`
pub open spec fn params_prefix() -> Seq<u8> {
    seq![44u8, 34u8, 112u8, 97u8, 114u8, 97u8, 109u8, 115u8, 34u8, 58u8]
}

/// The canonical bytes of the arguments: an array or an object.
pub open spec fn params_bytes(p: ParamsView) -> Seq<u8> {
    match p {
        ParamsView::Positional(vs) => seq![91u8] + items_bytes(vs) + seq![93u8],
        ParamsView::Named(es) => seq![123u8] + entries_bytes(es) + seq![125u8],
    }
}

/// The canonical bytes of an envelope: `{"method":...,"params":...}`.
pub open spec fn envelope_bytes(e: EnvelopeView) -> Seq<u8> {
    method_prefix() + text_bytes(e.method) + params_prefix() + params_bytes(e.params) + seq![125u8]
}

/// Appends bytes as they are.
pub(crate) fn write_bytes(lit: &[u8], out: &mut Vec<u8>)
    ensures
        final(out)@ == old(out)@ + lit@,
{
    let mut i: usize = 0;
    while i < lit.len()
        invariant
            i <= lit@.len(),
            out@ == old(out)@ + lit@.subrange(0, i as int),
        decreases lit@.len() - i,
    {
        out.push(lit[i]);
        assert(out@ =~= old(out)@ + lit@.subrange(0, i + 1));
        i = i + 1;
    }
    assert(lit@.subrange(0, lit@.len() as int) =~= lit@);
}

fn write_params(p: &Params, out: &mut Vec<u8>)
    ensures
        final(out)@ == old(out)@ + params_bytes(p@),
{
    match p {
        Params::Positional(vs) => {
            out.push(91);
            write_items(vs, out);
            out.push(93);
        },
        Params::Named(es) => {
            out.push(123);
            write_entries(es, out);
            out.push(125);
        },
    }
    assert(out@ =~= old(out)@ + params_bytes(p@));
}

/// The canonical bytes of an envelope, which are also what a caller signs.
pub fn encode_envelope(e: &CallEnvelope) -> (r: Vec<u8>)
    ensures
        r@ == envelope_bytes(e@),
{
    let mut out: Vec<u8> = Vec::new();
    let head: [u8; 10] = [123, 34, 109, 101, 116, 104, 111, 100, 34, 58];
    let mid: [u8; 10] = [44, 34, 112, 97, 114, 97, 109, 115, 34, 58];
    assert(head@ =~= method_prefix());
    assert(mid@ =~= params_prefix());
    write_bytes(head.as_slice(), &mut out);
    write_text(e.method.as_str(), &mut out);
    write_bytes(mid.as_slice(), &mut out);
    write_params(&e.params, &mut out);
    out.push(125);
    assert(out@ =~= envelope_bytes(e@));
    out
}


/// The arguments of an envelope are within range.
pub open spec fn envelope_in_range(e: EnvelopeView) -> bool {
    match e.params {
        ParamsView::Positional(vs) => values_in_range(vs),
        ParamsView::Named(es) => entries_in_range(es),
    }
}

/// The model of every envelope is within range.
pub proof fn lemma_envelope_view_in_range(e: CallEnvelope)
    ensures
        envelope_in_range(e@),
{
    match e.params {
        Params::Positional(vs) => {
            assert forall|k: int| 0 <= k < vs@.len() implies value_in_range(#[trigger] values_view(vs@)[k]) by {
                lemma_view_in_range(vs@[k]);
            }
        },
        Params::Named(es) => {
            assert forall|k: int| 0 <= k < es@.len() implies value_in_range(#[trigger] entries_view(es@)[k].1) by {
                lemma_view_in_range(es@[k].1);
            }
        },
    }
}

proof fn lemma_envelope_layout(b: Seq<u8>, e: EnvelopeView)
    requires
        b == envelope_bytes(e),
    ensures
        ({
            let ml = text_bytes(e.method).len() as int;
            let p0 = 20 + ml;
            &&& b.len() > 10
            &&& b.subrange(0, 10) == method_prefix()
            &&& b.subrange(10, b.len() as int) == text_bytes(e.method) + (params_prefix() + params_bytes(
                e.params,
            ) + seq![125u8])
            &&& b.len() > p0
            &&& b.subrange(10 + ml, p0) == params_prefix()
            &&& b.len() == p0 + params_bytes(e.params).len() + 1
            &&& b[b.len() - 1] == 125
            &&& (e.params matches ParamsView::Positional(vs) ==> b[p0] == 91 && b.subrange(p0, b.len() as int)
                == seq![91u8] + items_bytes(vs) + seq![93u8] + seq![125u8])
            &&& (e.params matches ParamsView::Named(es) ==> b[p0] == 123 && b.subrange(p0, b.len() as int)
                == seq![123u8] + entries_bytes(es) + seq![125u8] + seq![125u8])
        }),
{
    let ml = text_bytes(e.method).len() as int;
    let p0 = 20 + ml;
    let tail = params_prefix() + params_bytes(e.params) + seq![125u8];
    assert(b =~= method_prefix() + (text_bytes(e.method) + tail));
    assert(b.subrange(0, 10) =~= method_prefix());
    assert(b.subrange(10, b.len() as int) =~= text_bytes(e.method) + tail);
    assert(b.subrange(10 + ml, p0) =~= params_prefix());
    let pb = b.subrange(p0, b.len() as int);
    assert(pb =~= params_bytes(e.params) + seq![125u8]);
    assert(b[p0] == pb[0]);
}

/// Reads an envelope in canonical form. It accepts exactly the canonical bytes
/// of envelopes (with integers within range) and returns the envelope that
/// they are the bytes of.
pub fn decode_envelope(b: &Vec<u8>) -> (r: Option<CallEnvelope>)
    ensures
        r matches Some(e) ==> envelope_bytes(e@) == b@,
        forall|e: EnvelopeView| envelope_in_range(e) && #[trigger] envelope_bytes(e) == b@ ==> (r matches Some(d)
            && d@ == e),
{
    let ghost canon = exists|e: EnvelopeView| envelope_in_range(e) && #[trigger] envelope_bytes(e) == b@;
    let ghost te = choose|e: EnvelopeView| envelope_in_range(e) && #[trigger] envelope_bytes(e) == b@;
    let ghost ml = text_bytes(te.method).len() as int;
    proof {
        assert forall|e: EnvelopeView| envelope_in_range(e) && #[trigger] envelope_bytes(e) == b@ implies canon
            && e == te by {
            lemma_envelope_bytes_unique(e, te);
        }
        if canon {
            lemma_envelope_layout(b@, te);
        }
    }
    let head: [u8; 10] = [123, 34, 109, 101, 116, 104, 111, 100, 34, 58];
    let mid: [u8; 10] = [44, 34, 112, 97, 114, 97, 109, 115, 34, 58];
    assert(head@ =~= method_prefix());
    assert(mid@ =~= params_prefix());
    if !parse_literal(b, 0, head.as_slice()) || b.len() <= 10 {
        return None;
    }
    let (method, mend) = match parse_text_at(b, 10) {
        None => {
            return None;
        },
        Some(x) => x,
    };
    if !parse_literal(b, mend, mid.as_slice()) || b.len() <= mend + 10 {
        return None;
    }
    let p0 = mend + 10;
    let (params, pend) = if b[p0] == 91 {
        match parse_items(b, p0) {
            None => {
                return None;
            },
            Some((vs, end)) => (Params::Positional(vs), end),
        }
    } else {
        match parse_entries(b, p0) {
            None => {
                return None;
            },
            Some((es, end)) => (Params::Named(es), end),
        }
    };
    assert(b@.subrange(p0 as int, pend as int) == params_bytes(params@));
    proof {
        if canon {
            assert(params@ == te.params);
            assert(pend == b.len() - 1);
        }
    }
    if pend >= b.len() || pend + 1 != b.len() || b[pend] != 125 {
        return None;
    }
    let e = CallEnvelope { method, params };
    proof {
        assert(b@ =~= b@.subrange(0, 10) + b@.subrange(10, mend as int) + b@.subrange(
            mend as int,
            p0 as int,
        ) + b@.subrange(p0 as int, pend as int) + b@.subrange(pend as int, pend + 1));
        assert(b@.subrange(pend as int, pend + 1) =~= seq![125u8]);
        assert(b@ =~= envelope_bytes(e@));
        if canon {
            lemma_envelope_bytes_unique(e@, te);
        }
    }
    Some(e)
}

// ---------------------------------------------------------------------------
// Unique decoding
/// Canonical bytes decode uniquely: two envelopes with the same canonical
/// bytes are the same envelope. So any change to the method or to an argument
/// changes the bytes that are signed.
pub proof fn lemma_envelope_bytes_unique(e: EnvelopeView, f: EnvelopeView)
    requires
        envelope_bytes(e) == envelope_bytes(f),
    ensures
        e == f,
{
    let s = envelope_bytes(e);
    let xa = params_prefix() + params_bytes(e.params) + seq![125u8];
    let ya = params_prefix() + params_bytes(f.params) + seq![125u8];
    assert(s.subrange(10, s.len() as int) =~= text_bytes(e.method) + xa);
    assert(envelope_bytes(f).subrange(10, s.len() as int) =~= text_bytes(f.method) + ya);
    lemma_text_unique(e.method, f.method, xa, ya);
    let p = xa.subrange(10, xa.len() as int);
    assert(p =~= params_bytes(e.params) + seq![125u8]);
    assert(p =~= params_bytes(f.params) + seq![125u8]);
    match (e.params, f.params) {
        (ParamsView::Positional(vs), ParamsView::Positional(ws)) => {
            assert(p.drop_first() =~= items_bytes(vs) + seq![93u8] + seq![125u8]);
            assert(p.drop_first() =~= items_bytes(ws) + seq![93u8] + seq![125u8]);
            lemma_items_unique(vs, ws, seq![125u8], seq![125u8]);
        },
        (ParamsView::Named(es), ParamsView::Named(fs)) => {
            assert(p.drop_first() =~= entries_bytes(es) + seq![125u8] + seq![125u8]);
            assert(p.drop_first() =~= entries_bytes(fs) + seq![125u8] + seq![125u8]);
            lemma_entries_unique(es, fs, seq![125u8], seq![125u8]);
        },
        (ParamsView::Positional(_), ParamsView::Named(_)) => {
            assert(p[0] == 91 && p[0] == 123);
        },
        (ParamsView::Named(_), ParamsView::Positional(_)) => {
            assert(p[0] == 123 && p[0] == 91);
        },
    }
}

/// Determinism: a call encoded twice with the same arguments gives
/// byte-identical envelopes, in either form.
pub proof fn lemma_deterministic_encoding(m: MethodView, args1: Seq<ValueView>, args2: Seq<ValueView>)
    requires
        args1 == args2,
    ensures
        envelope_bytes(positional_envelope(m, args1)) == envelope_bytes(positional_envelope(m, args2)),
        envelope_bytes(named_envelope(m, args1)) == envelope_bytes(named_envelope(m, args2)),
{
}

} // verus!
