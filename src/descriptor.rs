//! Static description of a service: its methods and their parameters.
use crate::value::Kind;
use heck::CamelCase;
use vstd::prelude::*;

verus! {

/// The name that the caller's verified identity is bound to, when a method asks for it.
pub const CALLER_KEY: &'static str = "caller_key";

/// One declared parameter of a method.
#[derive(Clone, Debug)]
pub struct ParameterDescriptor {
    pub name: String,
    pub kind: Kind,
    pub is_implicit_caller: bool,
}

/// One remotely callable method; `name` is its wire name.
#[derive(Clone, Debug)]
pub struct MethodDescriptor {
    pub name: String,
    pub parameters: Vec<ParameterDescriptor>,
    pub result_kind: Kind,
    pub is_asynchronous: bool,
    pub requires_caller_identity: bool,
}

/// A service: a name and its methods, in a stable order.
#[derive(Clone, Debug)]
pub struct ServiceDescriptor {
    pub name: String,
    pub methods: Vec<MethodDescriptor>,
}

pub struct ParamView {
    pub name: Seq<char>,
    pub kind: Kind,
    pub is_implicit_caller: bool,
}

pub struct MethodView {
    pub name: Seq<char>,
    pub params: Seq<ParamView>,
    pub result_kind: Kind,
    pub is_asynchronous: bool,
    pub requires_caller_identity: bool,
}

pub struct ServiceView {
    pub name: Seq<char>,
    pub methods: Seq<MethodView>,
}

impl View for ParameterDescriptor {
    type V = ParamView;

    open spec fn view(&self) -> ParamView {
        ParamView { name: self.name@, kind: self.kind, is_implicit_caller: self.is_implicit_caller }
    }
}

impl View for MethodDescriptor {
    type V = MethodView;

    open spec fn view(&self) -> MethodView {
        MethodView {
            name: self.name@,
            params: self.parameters@.map_values(|p: ParameterDescriptor| p@),
            result_kind: self.result_kind,
            is_asynchronous: self.is_asynchronous,
            requires_caller_identity: self.requires_caller_identity,
        }
    }
}

impl View for ServiceDescriptor {
    type V = ServiceView;

    open spec fn view(&self) -> ServiceView {
        ServiceView { name: self.name@, methods: self.methods@.map_values(|m: MethodDescriptor| m@) }
    }
}

/// The parameters that the remote caller supplies: all but the implicit leading
/// caller slot.
pub open spec fn explicit_params(m: MethodView) -> Seq<ParamView> {
    if m.requires_caller_identity {
        m.params.drop_first()
    } else {
        m.params
    }
}

/// Parameter names are unique; the implicit caller slot exists exactly when the
/// method asks for the caller's identity, and then it comes first.
pub open spec fn method_wf(m: MethodView) -> bool {
    &&& forall|i: int, j: int|
        0 <= i < j < m.params.len() ==> #[trigger] m.params[i].name != #[trigger] m.params[j].name
    &&& m.requires_caller_identity ==> m.params.len() > 0 && m.params[0].is_implicit_caller
    &&& forall|i: int|
        0 <= i < m.params.len() && (#[trigger] m.params[i]).is_implicit_caller ==> i == 0
            && m.requires_caller_identity
}

/// Method names are unique and every method is well formed.
pub open spec fn service_wf(s: ServiceView) -> bool {
    &&& forall|i: int, j: int|
        0 <= i < j < s.methods.len() ==> #[trigger] s.methods[i].name != #[trigger] s.methods[j].name
    &&& forall|i: int| 0 <= i < s.methods.len() ==> method_wf(#[trigger] s.methods[i])
}

/// The index of the method with the given wire name, if any.
pub open spec fn method_index(s: ServiceView, name: Seq<char>) -> Option<int> {
    if exists|i: int| 0 <= i < s.methods.len() && #[trigger] s.methods[i].name == name {
        Some(choose|i: int| 0 <= i < s.methods.len() && #[trigger] s.methods[i].name == name)
    } else {
        None
    }
}

/// The wire form of a declared name, under the camel-case convention.
pub uninterp spec fn camel_case_of(s: Seq<char>) -> Seq<char>;

/// The wire form of a declared name.
pub open spec fn wire_name(s: Seq<char>, camel_case: bool) -> Seq<char> {
    if camel_case {
        camel_case_of(s)
    } else {
        s
    }
}

/// Relies on `heck::CamelCase::to_camel_case` (heck 0.3): its result depends on
/// the characters of the name alone, and an empty name stays empty.
#[verifier::external_body]
fn to_camel_case(s: &String) -> (r: String)
    ensures
        r@ == camel_case_of(s@),
        s@.len() == 0 ==> r@.len() == 0,
{
    s.as_str().to_camel_case()
}

/// Applies the naming convention of a service to a declared name.
pub fn wire_name_of(s: &String, camel_case: bool) -> (r: String)
    ensures
        r@ == wire_name(s@, camel_case),
{
    if camel_case {
        to_camel_case(s)
    } else {
        s.clone()
    }
}

/// Why a descriptor could not be built.
#[derive(Clone, Debug, PartialEq)]
pub enum DescriptorError {
    /// Two parameters of one method share this wire name.
    DuplicateParameter(String),
    /// Two methods of one service share this wire name.
    DuplicateMethod(String),
}

/// The index of the first parameter with the given name, if any.
fn find_parameter(params: &Vec<ParameterDescriptor>, name: &String) -> (r: Option<usize>)
    ensures
        r matches Some(i) ==> i < params@.len() && params@[i as int].name@ == name@,
        r is None ==> forall|i: int| 0 <= i < params@.len() ==> (#[trigger] params@[i]).name@ != name@,
{
    let mut i: usize = 0;
    while i < params.len()
        invariant
            i <= params@.len(),
            forall|k: int| 0 <= k < i ==> (#[trigger] params@[k]).name@ != name@,
        decreases params@.len() - i,
    {
        if params[i].name == *name {
            return Some(i);
        }
        i = i + 1;
    }
    None
}

impl MethodDescriptor {
    /// Builds a method from its declared name and explicit parameters (name and
    /// kind, in order). Names take the wire form of the convention chosen; when
    /// the method asks for the caller's identity, an implicit leading text
    /// parameter named [`CALLER_KEY`] is added in front.
    pub fn new(
        name: &String,
        explicit: &Vec<(String, Kind)>,
        result_kind: Kind,
        is_asynchronous: bool,
        requires_caller_identity: bool,
        camel_case: bool,
    ) -> (r: Result<MethodDescriptor, DescriptorError>)
        ensures
            r matches Ok(m) ==> {
                &&& method_wf(m@)
                &&& m@.name == wire_name(name@, camel_case)
                &&& m@.result_kind == result_kind
                &&& m@.is_asynchronous == is_asynchronous
                &&& m@.requires_caller_identity == requires_caller_identity
                &&& explicit_params(m@).len() == explicit@.len()
                &&& forall|i: int|
                    0 <= i < explicit@.len() ==> #[trigger] explicit_params(m@)[i] == (ParamView {
                        name: wire_name(explicit@[i].0@, camel_case),
                        kind: explicit@[i].1,
                        is_implicit_caller: false,
                    })
                &&& requires_caller_identity ==> m@.params[0] == (ParamView {
                    name: CALLER_KEY@,
                    kind: Kind::Text,
                    is_implicit_caller: true,
                })
            },
            r matches Err(DescriptorError::DuplicateParameter(n)) ==> {
                ||| requires_caller_identity && n@ == CALLER_KEY@ && exists|i: int|
                    0 <= i < explicit@.len() && wire_name(#[trigger] explicit@[i].0@, camel_case)
                        == CALLER_KEY@
                ||| exists|i: int, j: int|
                    0 <= i < j < explicit@.len() && wire_name(#[trigger] explicit@[i].0@, camel_case)
                        == n@ && wire_name(#[trigger] explicit@[j].0@, camel_case) == n@
            },
            r is Err ==> r matches Err(DescriptorError::DuplicateParameter(_)),
            (forall|i: int, j: int|
                0 <= i < j < explicit@.len() ==> wire_name(#[trigger] explicit@[i].0@, camel_case)
                    != wire_name(#[trigger] explicit@[j].0@, camel_case)) && (requires_caller_identity
                ==> forall|i: int|
                0 <= i < explicit@.len() ==> wire_name(#[trigger] explicit@[i].0@, camel_case)
                    != CALLER_KEY@) ==> r is Ok,
    {
        let mut params: Vec<ParameterDescriptor> = Vec::new();
        let off: usize = if requires_caller_identity {
            1
        } else {
            0
        };
        if requires_caller_identity {
            params.push(
                ParameterDescriptor {
                    name: CALLER_KEY.to_string(),
                    kind: Kind::Text,
                    is_implicit_caller: true,
                },
            );
        }
        let mut i: usize = 0;
        while i < explicit.len()
            invariant
                i <= explicit@.len(),
                off == (if requires_caller_identity { 1usize } else { 0usize }),
                params@.len() == off + i,
                requires_caller_identity ==> params@[0]@ == (ParamView {
                    name: CALLER_KEY@,
                    kind: Kind::Text,
                    is_implicit_caller: true,
                }),
                forall|k: int|
                    0 <= k < i ==> #[trigger] params@[off + k]@ == (ParamView {
                        name: wire_name(explicit@[k].0@, camel_case),
                        kind: explicit@[k].1,
                        is_implicit_caller: false,
                    }),
                forall|a: int, b: int|
                    0 <= a < b < params@.len() ==> #[trigger] params@[a].name@ != #[trigger] params@[b].name@,
            decreases explicit@.len() - i,
        {
            let wire = wire_name_of(&explicit[i].0, camel_case);
            match find_parameter(&params, &wire) {
                Some(k) => {
                    proof {
                        if requires_caller_identity && k == 0 {
                        } else {
                            let a = k - off;
                            assert(params@[off + a]@.name == wire_name(explicit@[a].0@, camel_case));
                        }
                    }
                    return Err(DescriptorError::DuplicateParameter(wire));
                },
                None => {},
            }
            params.push(
                ParameterDescriptor { name: wire, kind: explicit[i].1, is_implicit_caller: false },
            );
            i = i + 1;
        }
        let m = MethodDescriptor {
            name: wire_name_of(name, camel_case),
            parameters: params,
            result_kind,
            is_asynchronous,
            requires_caller_identity,
        };
        proof {
            let mv = m@;
            assert(mv.params.len() == params@.len());
            assert forall|k: int| 0 <= k < explicit@.len() implies #[trigger] explicit_params(mv)[k]
                == (ParamView {
                name: wire_name(explicit@[k].0@, camel_case),
                kind: explicit@[k].1,
                is_implicit_caller: false,
            }) by {
                assert(explicit_params(mv)[k] == mv.params[off + k]);
                assert(params@[off + k]@ == mv.params[off + k]);
            }
            assert forall|a: int, b: int| 0 <= a < b < mv.params.len() implies #[trigger] mv.params[a].name
                != #[trigger] mv.params[b].name by {
                assert(params@[a].name@ != params@[b].name@);
            }
            assert forall|a: int|
                0 <= a < mv.params.len() && (#[trigger] mv.params[a]).is_implicit_caller implies a == 0
                && requires_caller_identity by {
                if !(requires_caller_identity && a == 0) {
                    assert(params@[off + (a - off)]@.is_implicit_caller == false);
                }
            }
        }
        Ok(m)
    }
}


impl MethodDescriptor {
    /// Whether the method is well formed.
    pub fn is_well_formed(&self) -> (r: bool)
        ensures
            r == method_wf(self@),
    {
        let n = self.parameters.len();
        let mut i: usize = 0;
        while i < n
            invariant
                n == self@.params.len(),
                i <= n,
                forall|a: int, b: int| 0 <= a < b < n && a < i ==> #[trigger] self@.params[a].name != #[trigger] self@.params[b].name,
                forall|a: int| 0 <= a < i && (#[trigger] self@.params[a]).is_implicit_caller ==> a == 0 && self@.requires_caller_identity,
            decreases n - i,
        {
            assert(self@.params[i as int] == self.parameters@[i as int]@);
            if self.parameters[i].is_implicit_caller && !(i == 0 && self.requires_caller_identity) {
                return false;
            }
            let mut j: usize = i + 1;
            while j < n
                invariant
                    n == self@.params.len(),
                    i < n,
                    i < j <= n,
                    forall|b: int| i < b < j ==> self@.params[i as int].name != #[trigger] self@.params[b].name,
                decreases n - j,
            {
                assert(self@.params[j as int] == self.parameters@[j as int]@);
                assert(self@.params[i as int] == self.parameters@[i as int]@);
                if self.parameters[i].name == self.parameters[j].name {
                    assert(self@.params[i as int].name == self@.params[j as int].name);
                    return false;
                }
                j = j + 1;
            }
            i = i + 1;
        }
        if self.requires_caller_identity {
            if n == 0 {
                return false;
            }
            assert(self@.params[0] == self.parameters@[0]@);
            if !self.parameters[0].is_implicit_caller {
                return false;
            }
        }
        true
    }
}

impl ServiceDescriptor {
    /// Whether the service is well formed.
    pub fn is_well_formed(&self) -> (r: bool)
        ensures
            r == service_wf(self@),
    {
        let n = self.methods.len();
        let mut i: usize = 0;
        while i < n
            invariant
                n == self@.methods.len(),
                i <= n,
                forall|a: int, b: int| 0 <= a < b < n && a < i ==> #[trigger] self@.methods[a].name != #[trigger] self@.methods[b].name,
                forall|a: int| 0 <= a < i ==> method_wf(#[trigger] self@.methods[a]),
            decreases n - i,
        {
            assert(self@.methods[i as int] == self.methods@[i as int]@);
            if !self.methods[i].is_well_formed() {
                return false;
            }
            let mut j: usize = i + 1;
            while j < n
                invariant
                    n == self@.methods.len(),
                    i < n,
                    i < j <= n,
                    forall|b: int| i < b < j ==> self@.methods[i as int].name != #[trigger] self@.methods[b].name,
                decreases n - j,
            {
                assert(self@.methods[j as int] == self.methods@[j as int]@);
                assert(self@.methods[i as int] == self.methods@[i as int]@);
                if self.methods[i].name == self.methods[j].name {
                    assert(self@.methods[i as int].name == self@.methods[j as int].name);
                    return false;
                }
                j = j + 1;
            }
            i = i + 1;
        }
        true
    }

    /// A service with no methods yet.
    pub fn new(name: String) -> (r: ServiceDescriptor)
        ensures
            r@.name == name@,
            r@.methods.len() == 0,
            service_wf(r@),
    {
        ServiceDescriptor { name, methods: Vec::new() }
    }

    /// Adds a method at the end, unless its wire name is taken.
    pub fn add_method(&mut self, m: MethodDescriptor) -> (r: Result<(), DescriptorError>)
        requires
            service_wf(old(self)@),
            method_wf(m@),
        ensures
            service_wf(final(self)@),
            final(self)@.name == old(self)@.name,
            (exists|i: int| 0 <= i < old(self)@.methods.len() && #[trigger] old(self)@.methods[i].name == m@.name)
                <==> r is Err,
            r is Ok ==> final(self)@.methods == old(self)@.methods.push(m@),
            r matches Err(e) ==> final(self)@ == old(self)@ && e == DescriptorError::DuplicateMethod(m.name),
    {
        match self.find_method(&m.name) {
            Some(_) => Err(DescriptorError::DuplicateMethod(m.name)),
            None => {
                let ghost prev = self@.methods;
                self.methods.push(m);
                proof {
                    assert(self@.methods =~= prev.push(m@));
                    let ms = self@.methods;
                    assert forall|i: int, j: int| 0 <= i < j < ms.len() implies #[trigger] ms[i].name
                        != #[trigger] ms[j].name by {
                        if j == ms.len() - 1 {
                            assert(prev[i].name != m@.name);
                        }
                    }
                    assert forall|i: int| 0 <= i < ms.len() implies method_wf(#[trigger] ms[i]) by {
                        if i < prev.len() {
                            assert(ms[i] == prev[i]);
                        }
                    }
                }
                Ok(())
            },
        }
    }

    /// The position of the method with the given wire name, if there is one.
    pub fn find_method(&self, name: &String) -> (r: Option<usize>)
        ensures
            r matches Some(i) ==> i < self@.methods.len() && self@.methods[i as int].name == name@,
            r is None <==> !exists|i: int|
                0 <= i < self@.methods.len() && #[trigger] self@.methods[i].name == name@,
    {
        let mut i: usize = 0;
        while i < self.methods.len()
            invariant
                i <= self@.methods.len(),
                forall|k: int| 0 <= k < i ==> (#[trigger] self@.methods[k]).name != name@,
            decreases self@.methods.len() - i,
        {
            if self.methods[i].name == *name {
                assert(self@.methods[i as int].name == self.methods@[i as int].name@);
                return Some(i);
            }
            assert(self@.methods[i as int].name == self.methods@[i as int].name@);
            i = i + 1;
        }
        None
    }
}

} // verus!
