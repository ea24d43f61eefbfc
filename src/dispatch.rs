//! The dispatch engine: resolves a method, decodes its arguments against the
//! descriptor, injects the caller's identity, invokes the bound object and
//! wraps the outcome.
use crate::descriptor::{
    explicit_params, method_index, method_wf, service_wf, MethodDescriptor, MethodView, ParamView,
    ServiceDescriptor, ServiceView,
};
use crate::envelope::{named_envelope, positional_envelope, CallEnvelope, EnvelopeView, Params, ParamsView};
use crate::value::{copy_value, entries_view, kind_of, value_kind, values_view, Value, ValueView};
use vstd::prelude::*;

verus! {

/// The kinds of failure that a call can end in.
#[derive(Clone, Copy, Debug, PartialEq, Eq, Structural)]
pub enum ErrorTag {
    MethodNotFound,
    ArgumentNotFound,
    ArgumentCountMismatch,
    ParseFailure,
    AuthenticationFailure,
    ObjectNotFound,
    TransportFailure,
    InternalFailure,
}

/// Why dispatch did not produce a value.
#[derive(Clone, Debug, PartialEq)]
pub enum DispatchError {
    /// No method has this wire name.
    MethodNotFound(String),
    /// A named call lacks the argument of this parameter.
    ArgumentNotFound(String),
    /// A positional call has another number of arguments than the method declares.
    ArgumentCountMismatch,
    /// The argument of this parameter is not of its declared kind.
    ParseFailure(String),
    /// The bound object faulted.
    InternalFailure,
}

pub enum Fault {
    MethodNotFound(Seq<char>),
    ArgumentNotFound(Seq<char>),
    ArgumentCountMismatch,
    ParseFailure(Seq<char>),
    InternalFailure,
}

impl View for DispatchError {
    type V = Fault;

    open spec fn view(&self) -> Fault {
        match self {
            DispatchError::MethodNotFound(s) => Fault::MethodNotFound(s@),
            DispatchError::ArgumentNotFound(s) => Fault::ArgumentNotFound(s@),
            DispatchError::ArgumentCountMismatch => Fault::ArgumentCountMismatch,
            DispatchError::ParseFailure(s) => Fault::ParseFailure(s@),
            DispatchError::InternalFailure => Fault::InternalFailure,
        }
    }
}

/// The outcome of a call as the caller receives it.
#[derive(Clone, Debug, PartialEq)]
pub enum ResultEnvelope {
    Success(Value),
    Failure(ErrorTag, String),
}

pub enum ResultView {
    Success(ValueView),
    Failure(ErrorTag, Seq<char>),
}

impl View for ResultEnvelope {
    type V = ResultView;

    open spec fn view(&self) -> ResultView {
        match self {
            ResultEnvelope::Success(v) => ResultView::Success(v@),
            ResultEnvelope::Failure(t, d) => ResultView::Failure(*t, d@),
        }
    }
}

/// The error envelope of a fault: its tag and, where there is one, the name it concerns.
pub open spec fn fault_result(f: Fault) -> ResultView {
    match f {
        Fault::MethodNotFound(n) => ResultView::Failure(ErrorTag::MethodNotFound, n),
        Fault::ArgumentNotFound(n) => ResultView::Failure(ErrorTag::ArgumentNotFound, n),
        Fault::ArgumentCountMismatch => ResultView::Failure(ErrorTag::ArgumentCountMismatch, Seq::empty()),
        Fault::ParseFailure(n) => ResultView::Failure(ErrorTag::ParseFailure, n),
        Fault::InternalFailure => ResultView::Failure(ErrorTag::InternalFailure, Seq::empty()),
    }
}

// ---------------------------------------------------------------------------
// Argument decoding, stated
/// Positional arguments checked against the parameters' kinds, in order; the
/// first that does not fit decides.
pub open spec fn checked_args(ps: Seq<ParamView>, vs: Seq<ValueView>) -> Result<Seq<ValueView>, Fault>
    decreases ps.len(),
{
    if ps.len() == 0 || vs.len() == 0 {
        Ok(Seq::empty())
    } else {
        match checked_args(ps.drop_last(), vs.drop_last()) {
            Err(f) => Err(f),
            Ok(a) => if kind_of(vs.last()) == ps.last().kind {
                Ok(a.push(vs.last()))
            } else {
                Err(Fault::ParseFailure(ps.last().name))
            },
        }
    }
}

/// The arguments of a positional call.
pub open spec fn positional_args(ps: Seq<ParamView>, vs: Seq<ValueView>) -> Result<Seq<ValueView>, Fault> {
    if vs.len() != ps.len() {
        Err(Fault::ArgumentCountMismatch)
    } else {
        checked_args(ps, vs)
    }
}

/// The value of the first entry with the given key.
pub open spec fn lookup(es: Seq<(Seq<char>, ValueView)>, k: Seq<char>) -> Option<ValueView>
    decreases es.len(),
{
    if es.len() == 0 {
        None
    } else if es[0].0 == k {
        Some(es[0].1)
    } else {
        lookup(es.drop_first(), k)
    }
}

/// The argument of one parameter in a named call.
pub open spec fn named_arg(p: ParamView, es: Seq<(Seq<char>, ValueView)>) -> Result<ValueView, Fault> {
    match lookup(es, p.name) {
        None => Err(Fault::ArgumentNotFound(p.name)),
        Some(v) => if kind_of(v) == p.kind {
            Ok(v)
        } else {
            Err(Fault::ParseFailure(p.name))
        },
    }
}

/// The arguments of a named call, parameter by parameter in declared order;
/// the first parameter that fails decides.
pub open spec fn named_args(ps: Seq<ParamView>, es: Seq<(Seq<char>, ValueView)>) -> Result<Seq<ValueView>, Fault>
    decreases ps.len(),
{
    if ps.len() == 0 {
        Ok(Seq::empty())
    } else {
        match named_args(ps.drop_last(), es) {
            Err(f) => Err(f),
            Ok(a) => match named_arg(ps.last(), es) {
                Err(f) => Err(f),
                Ok(v) => Ok(a.push(v)),
            },
        }
    }
}

/// The explicit arguments that an envelope carries for a method.
pub open spec fn decoded_args(m: MethodView, p: ParamsView) -> Result<Seq<ValueView>, Fault> {
    match p {
        ParamsView::Positional(vs) => positional_args(explicit_params(m), vs),
        ParamsView::Named(es) => named_args(explicit_params(m), es),
    }
}

/// The full argument list of an invocation: the identity first when the method
/// asks for it, then the explicit arguments.
pub open spec fn invocation_args(m: MethodView, identity: ValueView, args: Seq<ValueView>) -> Seq<ValueView> {
    if m.requires_caller_identity {
        seq![identity] + args
    } else {
        args
    }
}

/// Which method a call resolves to and the arguments it is invoked with, or
/// the fault that stops it before the object is reached.
pub open spec fn resolve(s: ServiceView, e: EnvelopeView, identity: ValueView) -> Result<(int, Seq<ValueView>), Fault> {
    match method_index(s, e.method) {
        None => Err(Fault::MethodNotFound(e.method)),
        Some(i) => match decoded_args(s.methods[i], e.params) {
            Err(f) => Err(f),
            Ok(args) => Ok((i, invocation_args(s.methods[i], identity, args))),
        },
    }
}

// ---------------------------------------------------------------------------
// Lemmas
proof fn lemma_method_index(s: ServiceView, i: int)
    requires
        service_wf(s),
        0 <= i < s.methods.len(),
    ensures
        method_index(s, s.methods[i].name) == Some(i),
{
    let name = s.methods[i].name;
    assert(s.methods[i].name == name);
    let j = choose|j: int| 0 <= j < s.methods.len() && #[trigger] s.methods[j].name == name;
    if j < i {
        assert(s.methods[j].name != s.methods[i].name);
    } else if i < j {
        assert(s.methods[i].name != s.methods[j].name);
    }
}

proof fn lemma_checked_prefix(ps: Seq<ParamView>, vs: Seq<ValueView>, n: int)
    requires
        ps.len() == vs.len(),
        0 <= n <= ps.len(),
        checked_args(ps.subrange(0, n), vs.subrange(0, n)) is Err,
    ensures
        checked_args(ps, vs) == checked_args(ps.subrange(0, n), vs.subrange(0, n)),
    decreases ps.len() - n,
{
    if n < ps.len() {
        let p1 = ps.subrange(0, n + 1);
        let v1 = vs.subrange(0, n + 1);
        assert(p1.drop_last() =~= ps.subrange(0, n));
        assert(v1.drop_last() =~= vs.subrange(0, n));
        lemma_checked_prefix(ps, vs, n + 1);
    } else {
        assert(ps.subrange(0, n) =~= ps);
        assert(vs.subrange(0, n) =~= vs);
    }
}

proof fn lemma_named_prefix(ps: Seq<ParamView>, es: Seq<(Seq<char>, ValueView)>, n: int)
    requires
        0 <= n <= ps.len(),
        named_args(ps.subrange(0, n), es) is Err,
    ensures
        named_args(ps, es) == named_args(ps.subrange(0, n), es),
    decreases ps.len() - n,
{
    if n < ps.len() {
        let p1 = ps.subrange(0, n + 1);
        assert(p1.drop_last() =~= ps.subrange(0, n));
        lemma_named_prefix(ps, es, n + 1);
    } else {
        assert(ps.subrange(0, n) =~= ps);
    }
}

proof fn lemma_lookup_skip(es: Seq<(Seq<char>, ValueView)>, k: Seq<char>, i: int)
    requires
        0 <= i <= es.len(),
        forall|j: int| 0 <= j < i ==> (#[trigger] es[j]).0 != k,
    ensures
        lookup(es, k) == lookup(es.subrange(i, es.len() as int), k),
    decreases i,
{
    if i > 0 {
        assert(es[0].0 != k);
        let rest = es.drop_first();
        assert forall|j: int| 0 <= j < i - 1 implies (#[trigger] rest[j]).0 != k by {
            assert(rest[j] == es[j + 1]);
        }
        lemma_lookup_skip(rest, k, i - 1);
        assert(rest.subrange(i - 1, rest.len() as int) =~= es.subrange(i, es.len() as int));
    } else {
        assert(es.subrange(0, es.len() as int) =~= es);
    }
}


// ---------------------------------------------------------------------------
// Argument decoding
/// The model of a decoding outcome.
pub open spec fn args_outcome(r: Result<Vec<Value>, DispatchError>) -> Result<Seq<ValueView>, Fault> {
    match r {
        Ok(vs) => Ok(values_view(vs@)),
        Err(e) => Err(e@),
    }
}

/// The model of a resolution outcome.
pub open spec fn resolved_outcome(r: Result<(usize, Vec<Value>), DispatchError>) -> Result<(int, Seq<ValueView>), Fault> {
    match r {
        Ok((i, vs)) => Ok((i as int, values_view(vs@))),
        Err(e) => Err(e@),
    }
}

proof fn lemma_explicit_index(m: &MethodDescriptor, off: int, i: int)
    requires
        method_wf(m@),
        off == (if m@.requires_caller_identity { 1int } else { 0int }),
        0 <= i < explicit_params(m@).len(),
    ensures
        explicit_params(m@)[i] == m.parameters@[off + i]@,
        explicit_params(m@).len() == m.parameters@.len() - off,
{
}

fn find_entry(es: &Vec<(String, Value)>, k: &String) -> (r: Option<usize>)
    ensures
        r matches Some(j) ==> j < es@.len() && lookup(entries_view(es@), k@) == Some(es@[j as int].1@),
        r is None ==> lookup(entries_view(es@), k@) is None,
{
    let ghost ev = entries_view(es@);
    let mut j: usize = 0;
    while j < es.len()
        invariant
            j <= es@.len(),
            ev == entries_view(es@),
            forall|q: int| 0 <= q < j ==> (#[trigger] ev[q]).0 != k@,
        decreases es@.len() - j,
    {
        if es[j].0 == *k {
            proof {
                lemma_lookup_skip(ev, k@, j as int);
                assert(ev.subrange(j as int, ev.len() as int)[0] == ev[j as int]);
            }
            return Some(j);
        }
        j = j + 1;
    }
    proof {
        lemma_lookup_skip(ev, k@, j as int);
        assert(ev.subrange(j as int, ev.len() as int).len() == 0);
    }
    None
}

fn decode_positional(m: &MethodDescriptor, vs: &Vec<Value>) -> (r: Result<Vec<Value>, DispatchError>)
    requires
        method_wf(m@),
    ensures
        args_outcome(r) == positional_args(explicit_params(m@), values_view(vs@)),
{
    let off: usize = if m.requires_caller_identity {
        1
    } else {
        0
    };
    let n: usize = m.parameters.len() - off;
    let ghost ps = explicit_params(m@);
    let ghost vv = values_view(vs@);
    assert(ps.len() == n);
    if vs.len() != n {
        return Err(DispatchError::ArgumentCountMismatch);
    }
    let mut out: Vec<Value> = Vec::new();
    let mut i: usize = 0;
    assert(values_view(out@) =~= Seq::<ValueView>::empty());
    assert(ps.subrange(0, 0) =~= Seq::<ParamView>::empty());
    while i < n
        invariant
            i <= n,
            n == ps.len(),
            vv.len() == n,
            vv == values_view(vs@),
            ps == explicit_params(m@),
            method_wf(m@),
            off == (if m@.requires_caller_identity { 1usize } else { 0usize }),
            checked_args(ps.subrange(0, i as int), vv.subrange(0, i as int)) == Ok::<
                Seq<ValueView>,
                Fault,
            >(values_view(out@)),
        decreases n - i,
    {
        proof {
            lemma_explicit_index(m, off as int, i as int);
        }
        let ghost p1 = ps.subrange(0, i + 1);
        let ghost v1 = vv.subrange(0, i + 1);
        assert(p1.drop_last() =~= ps.subrange(0, i as int));
        assert(v1.drop_last() =~= vv.subrange(0, i as int));
        assert(v1.last() == vs@[i as int]@);
        assert(p1.last() == ps[i as int]);
        if value_kind(&vs[i]) != m.parameters[off + i].kind {
            let name = m.parameters[off + i].name.clone();
            proof {
                assert(checked_args(p1, v1) == Err::<Seq<ValueView>, Fault>(
                    Fault::ParseFailure(ps[i as int].name),
                ));
                lemma_checked_prefix(ps, vv, i + 1);
            }
            return Err(DispatchError::ParseFailure(name));
        }
        let ghost prev = out@;
        out.push(copy_value(&vs[i]));
        assert(values_view(out@) =~= values_view(prev).push(vv[i as int]));
        i = i + 1;
    }
    assert(ps.subrange(0, n as int) =~= ps);
    assert(vv.subrange(0, n as int) =~= vv);
    Ok(out)
}

fn decode_named(m: &MethodDescriptor, es: &Vec<(String, Value)>) -> (r: Result<Vec<Value>, DispatchError>)
    requires
        method_wf(m@),
    ensures
        args_outcome(r) == named_args(explicit_params(m@), entries_view(es@)),
{
    let off: usize = if m.requires_caller_identity {
        1
    } else {
        0
    };
    let n: usize = m.parameters.len() - off;
    let ghost ps = explicit_params(m@);
    let ghost ev = entries_view(es@);
    assert(ps.len() == n);
    let mut out: Vec<Value> = Vec::new();
    let mut i: usize = 0;
    assert(values_view(out@) =~= Seq::<ValueView>::empty());
    assert(ps.subrange(0, 0) =~= Seq::<ParamView>::empty());
    while i < n
        invariant
            i <= n,
            n == ps.len(),
            ev == entries_view(es@),
            ps == explicit_params(m@),
            method_wf(m@),
            off == (if m@.requires_caller_identity { 1usize } else { 0usize }),
            named_args(ps.subrange(0, i as int), ev) == Ok::<Seq<ValueView>, Fault>(values_view(out@)),
        decreases n - i,
    {
        proof {
            lemma_explicit_index(m, off as int, i as int);
        }
        let ghost p1 = ps.subrange(0, i + 1);
        assert(p1.drop_last() =~= ps.subrange(0, i as int));
        assert(p1.last() == ps[i as int]);
        let param = &m.parameters[off + i];
        match find_entry(es, &param.name) {
            None => {
                let name = param.name.clone();
                proof {
                    assert(named_arg(ps[i as int], ev) == Err::<ValueView, Fault>(
                        Fault::ArgumentNotFound(ps[i as int].name),
                    ));
                    lemma_named_prefix(ps, ev, i + 1);
                }
                return Err(DispatchError::ArgumentNotFound(name));
            },
            Some(j) => {
                if value_kind(&es[j].1) != param.kind {
                    let name = param.name.clone();
                    proof {
                        assert(named_arg(ps[i as int], ev) == Err::<ValueView, Fault>(
                            Fault::ParseFailure(ps[i as int].name),
                        ));
                        lemma_named_prefix(ps, ev, i + 1);
                    }
                    return Err(DispatchError::ParseFailure(name));
                }
                let ghost prev = out@;
                out.push(copy_value(&es[j].1));
                assert(values_view(out@) =~= values_view(prev).push(es@[j as int].1@));
            },
        }
        i = i + 1;
    }
    assert(ps.subrange(0, n as int) =~= ps);
    Ok(out)
}

/// Decodes the explicit arguments that an envelope carries for a method.
pub fn decode_args(m: &MethodDescriptor, p: &Params) -> (r: Result<Vec<Value>, DispatchError>)
    requires
        method_wf(m@),
    ensures
        args_outcome(r) == decoded_args(m@, p@),
{
    match p {
        Params::Positional(vs) => decode_positional(m, vs),
        Params::Named(es) => decode_named(m, es),
    }
}

/// Resolves a call: finds the method, decodes its explicit arguments and puts
/// the caller's identity first where the method asks for it.
pub fn resolve_call(desc: &ServiceDescriptor, env: &CallEnvelope, identity: &Value) -> (r: Result<
    (usize, Vec<Value>),
    DispatchError,
>)
    requires
        service_wf(desc@),
    ensures
        resolved_outcome(r) == resolve(desc@, env@, identity@),
{
    let i = match desc.find_method(&env.method) {
        None => {
            return Err(DispatchError::MethodNotFound(env.method.clone()));
        },
        Some(i) => i,
    };
    proof {
        lemma_method_index(desc@, i as int);
    }
    let m = &desc.methods[i];
    assert(desc@.methods[i as int] == m@);
    let args = match decode_args(m, &env.params) {
        Err(e) => {
            return Err(e);
        },
        Ok(a) => a,
    };
    let mut full: Vec<Value> = Vec::new();
    if m.requires_caller_identity {
        full.push(copy_value(identity));
    }
    let ghost start = values_view(full@);
    let mut k: usize = 0;
    while k < args.len()
        invariant
            k <= args@.len(),
            values_view(full@) == start + values_view(args@).subrange(0, k as int),
        decreases args@.len() - k,
    {
        let ghost prev = full@;
        full.push(copy_value(&args[k]));
        assert(values_view(full@) =~= values_view(prev).push(args@[k as int]@));
        assert(values_view(args@).subrange(0, k + 1) =~= values_view(args@).subrange(0, k as int).push(
            args@[k as int]@,
        ));
        k = k + 1;
    }
    assert(values_view(args@).subrange(0, args@.len() as int) =~= values_view(args@));
    assert(values_view(full@) =~= invocation_args(m@, identity@, values_view(args@)));
    Ok((i, full))
}


// ---------------------------------------------------------------------------
// Invocation
/// An object whose methods can be invoked by wire name with a full argument
/// list (the caller's identity first, where the method asks for it).
pub trait ServiceObject {
    /// Runs the method; `None` when the method faulted.
    fn invoke(&mut self, method: &String, args: Vec<Value>) -> Option<Value>;
}

/// The error envelope of a dispatch error.
pub fn fault_envelope(e: DispatchError) -> (r: ResultEnvelope)
    ensures
        r@ == fault_result(e@),
{
    match e {
        DispatchError::MethodNotFound(n) => ResultEnvelope::Failure(ErrorTag::MethodNotFound, n),
        DispatchError::ArgumentNotFound(n) => ResultEnvelope::Failure(ErrorTag::ArgumentNotFound, n),
        DispatchError::ArgumentCountMismatch => ResultEnvelope::Failure(
            ErrorTag::ArgumentCountMismatch,
            String::new(),
        ),
        DispatchError::ParseFailure(n) => ResultEnvelope::Failure(ErrorTag::ParseFailure, n),
        DispatchError::InternalFailure => ResultEnvelope::Failure(
            ErrorTag::InternalFailure,
            String::new(),
        ),
    }
}

/// Wraps what the bound object returned: its value, or an internal failure
/// when it faulted.
pub fn complete_invocation(outcome: Option<Value>) -> (r: ResultEnvelope)
    ensures
        outcome matches Some(v) ==> r@ == ResultView::Success(v@),
        outcome is None ==> r@ == fault_result(Fault::InternalFailure),
{
    match outcome {
        Some(v) => ResultEnvelope::Success(v),
        None => fault_envelope(DispatchError::InternalFailure),
    }
}

/// Dispatches one call on an object. A call that does not resolve ends in its
/// fault and leaves the object untouched; one that resolves is invoked with the
/// resolved arguments and ends in the object's value or in an internal failure.
pub fn dispatch<S: ServiceObject>(
    desc: &ServiceDescriptor,
    object: &mut S,
    env: &CallEnvelope,
    identity: &Value,
) -> (r: ResultEnvelope)
    requires
        service_wf(desc@),
    ensures
        resolve(desc@, env@, identity@) matches Err(f) ==> r@ == fault_result(f) && *final(object)
            == *old(object),
        resolve(desc@, env@, identity@) is Ok ==> (r@ is Success || r@ == fault_result(
            Fault::InternalFailure,
        )),
{
    match resolve_call(desc, env, identity) {
        Err(e) => fault_envelope(e),
        Ok((i, args)) => {
            let outcome = object.invoke(&desc.methods[i].name, args);
            complete_invocation(outcome)
        },
    }
}

// ---------------------------------------------------------------------------
// Laws
/// Arguments that fit the declared kinds of a method's explicit parameters.
pub open spec fn args_fit(m: MethodView, args: Seq<ValueView>) -> bool {
    &&& args.len() == explicit_params(m).len()
    &&& forall|k: int| 0 <= k < args.len() ==> kind_of(#[trigger] args[k]) == explicit_params(m)[k].kind
}

proof fn lemma_explicit_names_unique(m: MethodView)
    requires
        method_wf(m),
    ensures
        forall|i: int, j: int|
            0 <= i < explicit_params(m).len() && 0 <= j < explicit_params(m).len() && i != j
                ==> #[trigger] explicit_params(m)[i].name != #[trigger] explicit_params(m)[j].name,
{
    let ps = explicit_params(m);
    assert forall|i: int, j: int|
        0 <= i < ps.len() && 0 <= j < ps.len() && i != j implies #[trigger] ps[i].name
        != #[trigger] ps[j].name by {
        let off: int = if m.requires_caller_identity { 1 } else { 0 };
        assert(ps[i] == m.params[i + off]);
        assert(ps[j] == m.params[j + off]);
        if i < j {
            assert(m.params[i + off].name != m.params[j + off].name);
        } else {
            assert(m.params[j + off].name != m.params[i + off].name);
        }
    }
}

proof fn lemma_checked_fit(ps: Seq<ParamView>, args: Seq<ValueView>)
    requires
        args.len() == ps.len(),
        forall|k: int| 0 <= k < args.len() ==> kind_of(#[trigger] args[k]) == ps[k].kind,
    ensures
        checked_args(ps, args) == Ok::<Seq<ValueView>, Fault>(args),
    decreases ps.len(),
{
    if ps.len() > 0 {
        let p0 = ps.drop_last();
        let a0 = args.drop_last();
        assert forall|k: int| 0 <= k < a0.len() implies kind_of(#[trigger] a0[k]) == p0[k].kind by {
            assert(a0[k] == args[k]);
        }
        lemma_checked_fit(p0, a0);
        assert(kind_of(args[args.len() - 1]) == ps[ps.len() - 1].kind);
        assert(a0.push(args.last()) =~= args);
    } else {
        assert(args =~= Seq::<ValueView>::empty());
    }
}

proof fn lemma_lookup_at(es: Seq<(Seq<char>, ValueView)>, j: int)
    requires
        0 <= j < es.len(),
        forall|q: int| 0 <= q < j ==> (#[trigger] es[q]).0 != es[j].0,
    ensures
        lookup(es, es[j].0) == Some(es[j].1),
{
    lemma_lookup_skip(es, es[j].0, j);
    let rest = es.subrange(j, es.len() as int);
    assert(rest[0] == es[j]);
}

proof fn lemma_lookup_absent(es: Seq<(Seq<char>, ValueView)>, k: Seq<char>)
    requires
        forall|q: int| 0 <= q < es.len() ==> (#[trigger] es[q]).0 != k,
    ensures
        lookup(es, k) is None,
{
    lemma_lookup_skip(es, k, es.len() as int);
    assert(es.subrange(es.len() as int, es.len() as int).len() == 0);
}

proof fn lemma_named_fit(m: MethodView, args: Seq<ValueView>, n: int)
    requires
        method_wf(m),
        args_fit(m, args),
        0 <= n <= args.len(),
    ensures
        named_args(
            explicit_params(m).subrange(0, n),
            match named_envelope(m, args).params {
                ParamsView::Named(es) => es,
                _ => Seq::empty(),
            },
        ) == Ok::<Seq<ValueView>, Fault>(args.subrange(0, n)),
    decreases n,
{
    let ps = explicit_params(m);
    let es = Seq::new(args.len(), |i: int| (ps[i].name, args[i]));
    assert(named_envelope(m, args).params == ParamsView::Named(es));
    if n == 0 {
        assert(args.subrange(0, 0) =~= Seq::<ValueView>::empty());
    } else {
        lemma_named_fit(m, args, n - 1);
        let p1 = ps.subrange(0, n);
        assert(p1.drop_last() =~= ps.subrange(0, n - 1));
        assert(p1.last() == ps[n - 1]);
        lemma_explicit_names_unique(m);
        assert forall|q: int| 0 <= q < n - 1 implies (#[trigger] es[q]).0 != es[n - 1].0 by {
            assert(ps[q].name != ps[n - 1].name);
        }
        lemma_lookup_at(es, n - 1);
        assert(args.subrange(0, n - 1).push(args[n - 1]) =~= args.subrange(0, n));
    }
}

/// Round trip: for arguments that fit a method's declared kinds, the positional
/// and the named envelope of the call both decode to exactly those arguments,
/// and both resolve to the same invocation.
pub proof fn lemma_round_trip(s: ServiceView, i: int, args: Seq<ValueView>, identity: ValueView)
    requires
        service_wf(s),
        0 <= i < s.methods.len(),
        args_fit(s.methods[i], args),
    ensures
        decoded_args(s.methods[i], positional_envelope(s.methods[i], args).params) == Ok::<
            Seq<ValueView>,
            Fault,
        >(args),
        decoded_args(s.methods[i], named_envelope(s.methods[i], args).params) == Ok::<
            Seq<ValueView>,
            Fault,
        >(args),
        resolve(s, positional_envelope(s.methods[i], args), identity) == resolve(
            s,
            named_envelope(s.methods[i], args),
            identity,
        ),
        resolve(s, positional_envelope(s.methods[i], args), identity) == Ok::<
            (int, Seq<ValueView>),
            Fault,
        >((i, invocation_args(s.methods[i], identity, args))),
{
    let m = s.methods[i];
    lemma_checked_fit(explicit_params(m), args);
    lemma_named_fit(m, args, args.len() as int);
    assert(explicit_params(m).subrange(0, args.len() as int) =~= explicit_params(m));
    assert(args.subrange(0, args.len() as int) =~= args);
    lemma_method_index(s, i);
}

/// Unknown method: a call whose method no descriptor entry names ends in
/// `MethodNotFound` with that name, never in an internal failure.
pub proof fn lemma_unknown_method(s: ServiceView, e: EnvelopeView, identity: ValueView)
    requires
        forall|i: int| 0 <= i < s.methods.len() ==> (#[trigger] s.methods[i]).name != e.method,
    ensures
        resolve(s, e, identity) == Err::<(int, Seq<ValueView>), Fault>(Fault::MethodNotFound(e.method)),
        fault_result(Fault::MethodNotFound(e.method)) == ResultView::Failure(
            ErrorTag::MethodNotFound,
            e.method,
        ),
        fault_result(Fault::MethodNotFound(e.method)) != fault_result(Fault::InternalFailure),
{
}

/// Missing named argument: leaving out the entry of one explicit parameter from
/// the named envelope of a fitting call yields `ArgumentNotFound` naming exactly
/// that parameter.
pub proof fn lemma_missing_named_argument(m: MethodView, args: Seq<ValueView>, k: int)
    requires
        method_wf(m),
        args_fit(m, args),
        0 <= k < args.len(),
    ensures
        ({
            let es = match named_envelope(m, args).params {
                ParamsView::Named(es) => es,
                _ => Seq::empty(),
            };
            decoded_args(m, ParamsView::Named(es.remove(k))) == Err::<Seq<ValueView>, Fault>(
                Fault::ArgumentNotFound(explicit_params(m)[k].name),
            )
        }),
{
    let ps = explicit_params(m);
    let es = Seq::new(args.len(), |i: int| (ps[i].name, args[i]));
    assert(named_envelope(m, args).params == ParamsView::Named(es));
    let cut = es.remove(k);
    lemma_explicit_names_unique(m);
    // the parameters before `k` still find their arguments
    assert forall|n: int| 0 <= n <= k implies named_args(ps.subrange(0, n), cut) == Ok::<
        Seq<ValueView>,
        Fault,
    >(args.subrange(0, n)) by {
        lemma_named_prefix_fit(m, args, k, n);
    }
    // the parameter at `k` does not
    assert forall|q: int| 0 <= q < cut.len() implies (#[trigger] cut[q]).0 != ps[k].name by {
        if q < k {
            assert(cut[q] == es[q]);
        } else {
            assert(cut[q] == es[q + 1]);
        }
    }
    lemma_lookup_absent(cut, ps[k].name);
    let p1 = ps.subrange(0, k + 1);
    assert(p1.drop_last() =~= ps.subrange(0, k));
    assert(p1.last() == ps[k]);
    lemma_named_prefix(ps, cut, k + 1);
}

proof fn lemma_named_prefix_fit(m: MethodView, args: Seq<ValueView>, k: int, n: int)
    requires
        method_wf(m),
        args_fit(m, args),
        0 <= n <= k < args.len(),
    ensures
        named_args(
            explicit_params(m).subrange(0, n),
            Seq::new(args.len(), |i: int| (explicit_params(m)[i].name, args[i])).remove(k),
        ) == Ok::<Seq<ValueView>, Fault>(args.subrange(0, n)),
    decreases n,
{
    let ps = explicit_params(m);
    let es = Seq::new(args.len(), |i: int| (ps[i].name, args[i]));
    let cut = es.remove(k);
    if n == 0 {
        assert(args.subrange(0, 0) =~= Seq::<ValueView>::empty());
    } else {
        lemma_named_prefix_fit(m, args, k, n - 1);
        let p1 = ps.subrange(0, n);
        assert(p1.drop_last() =~= ps.subrange(0, n - 1));
        assert(p1.last() == ps[n - 1]);
        lemma_explicit_names_unique(m);
        assert(cut[n - 1] == es[n - 1]);
        assert forall|q: int| 0 <= q < n - 1 implies (#[trigger] cut[q]).0 != cut[n - 1].0 by {
            assert(cut[q] == es[q]);
            assert(ps[q].name != ps[n - 1].name);
        }
        lemma_lookup_at(cut, n - 1);
        assert(args.subrange(0, n - 1).push(args[n - 1]) =~= args.subrange(0, n));
    }
}

} // verus!
