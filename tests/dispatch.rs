use serde_tc::descriptor::{wire_name_of, DescriptorError, MethodDescriptor, ServiceDescriptor};
use serde_tc::dispatch::{dispatch, resolve_call, DispatchError, ErrorTag, ResultEnvelope, ServiceObject};
use serde_tc::envelope::{decode_envelope, encode_envelope, encode_named, encode_positional, CallEnvelope, Params};
use serde_tc::stub::encode_result;
use serde_tc::value::{Kind, Value};

struct SimpleImpl {
    calls: usize,
}

impl ServiceObject for SimpleImpl {
    fn invoke(&mut self, method: &String, args: Vec<Value>) -> Option<Value> {
        self.calls += 1;
        match (method.as_str(), args.as_slice()) {
            ("f1", [Value::Int(a1), Value::Text(a2), Value::Int(a3)]) => {
                Some(Value::Text(format!("{}{}{}", a1, a2, a3)))
            }
            ("f2", []) => Some(Value::Text("hi".to_owned())),
            ("f3", [Value::Int(_)]) => Some(Value::Null),
            _ => None,
        }
    }
}

fn method(name: &str, params: &[(&str, Kind)], result: Kind) -> MethodDescriptor {
    let explicit: Vec<(String, Kind)> = params.iter().map(|(n, k)| (n.to_string(), *k)).collect();
    MethodDescriptor::new(&name.to_string(), &explicit, result, false, false, false).unwrap()
}

fn trait1() -> ServiceDescriptor {
    let mut s = ServiceDescriptor::new("Trait1".to_owned());
    s.add_method(method("f1", &[("a1", Kind::Integer), ("a2", Kind::Text), ("a3", Kind::Integer)], Kind::Text))
        .unwrap();
    s.add_method(method("f2", &[], Kind::Text)).unwrap();
    s.add_method(method("f3", &[("a1", Kind::Integer)], Kind::Unit)).unwrap();
    s
}

fn f1_args() -> Vec<Value> {
    vec![Value::Int(1), Value::Text("hello".to_owned()), Value::Int(3)]
}

fn no_identity() -> Value {
    Value::Null
}

#[test]
fn test1() {
    let desc = trait1();
    let mut object = SimpleImpl { calls: 0 };

    let args = encode_positional(&desc.methods[0], &f1_args());
    let result = dispatch(&desc, &mut object, &args, &no_identity());
    assert_eq!(
        String::from_utf8(encode_result(&result)).unwrap(),
        format!(r#""{}{}{}""#, 1, "hello", 3)
    );
    let args = encode_named(&desc.methods[0], &f1_args());
    let result = dispatch(&desc, &mut object, &args, &no_identity());
    assert_eq!(
        String::from_utf8(encode_result(&result)).unwrap(),
        format!(r#""{}{}{}""#, 1, "hello", 3)
    );
}

#[test]
fn test1_async() {
    let mut desc = trait1();
    for m in desc.methods.iter_mut() {
        m.is_asynchronous = true;
    }
    let mut object = SimpleImpl { calls: 0 };

    let args = encode_positional(&desc.methods[0], &f1_args());
    let result = dispatch(&desc, &mut object, &args, &no_identity());
    assert_eq!(
        String::from_utf8(encode_result(&result)).unwrap(),
        format!(r#""{}{}{}""#, 1, "hello", 3)
    );
    let args = encode_named(&desc.methods[0], &f1_args());
    let result = dispatch(&desc, &mut object, &args, &no_identity());
    assert_eq!(
        String::from_utf8(encode_result(&result)).unwrap(),
        format!(r#""{}{}{}""#, 1, "hello", 3)
    );
}

#[test]
fn positional_and_named_decode_to_the_same_arguments() {
    let desc = trait1();
    let positional = encode_positional(&desc.methods[0], &f1_args());
    let named = encode_named(&desc.methods[0], &f1_args());
    let (i, a) = resolve_call(&desc, &positional, &no_identity()).unwrap();
    let (j, b) = resolve_call(&desc, &named, &no_identity()).unwrap();
    assert_eq!(i, 0);
    assert_eq!(j, 0);
    assert_eq!(a, f1_args());
    assert_eq!(b, f1_args());
}

#[test]
fn envelope_bytes_are_deterministic_and_canonical() {
    let desc = trait1();
    let first = encode_envelope(&encode_positional(&desc.methods[0], &f1_args()));
    let second = encode_envelope(&encode_positional(&desc.methods[0], &f1_args()));
    assert_eq!(first, second);
    assert_eq!(
        String::from_utf8(first).unwrap(),
        r#"{"method":"f1","params":[1,"hello",3]}"#
    );
    let named = encode_envelope(&encode_named(&desc.methods[0], &f1_args()));
    assert_eq!(
        String::from_utf8(named).unwrap(),
        r#"{"method":"f1","params":{"a1":1,"a2":"hello","a3":3}}"#
    );
}

#[test]
fn envelope_bytes_decode_back() {
    let desc = trait1();
    let env = encode_named(&desc.methods[0], &f1_args());
    let bytes = encode_envelope(&env);
    assert_eq!(decode_envelope(&bytes), Some(env));
    let env = encode_positional(&desc.methods[1], &vec![]);
    let bytes = encode_envelope(&env);
    assert_eq!(String::from_utf8(bytes.clone()).unwrap(), r#"{"method":"f2","params":[]}"#);
    assert_eq!(decode_envelope(&bytes), Some(env));
}

#[test]
fn envelope_with_spaces_is_not_canonical() {
    let bytes = br#"{"method": "f1", "params": [1, "2", 3]}"#.to_vec();
    assert_eq!(decode_envelope(&bytes), None);
    assert_eq!(decode_envelope(&b"This request is not a valid JSON".to_vec()), None);
}

#[test]
fn unknown_method_is_method_not_found() {
    let desc = trait1();
    let mut object = SimpleImpl { calls: 0 };
    let env = CallEnvelope { method: "nonexistent".to_owned(), params: Params::Named(vec![]) };
    let result = dispatch(&desc, &mut object, &env, &no_identity());
    assert_eq!(result, ResultEnvelope::Failure(ErrorTag::MethodNotFound, "nonexistent".to_owned()));
    assert_eq!(object.calls, 0);
}

#[test]
fn missing_named_argument_names_the_key() {
    let desc = trait1();
    let env = CallEnvelope {
        method: "f1".to_owned(),
        params: Params::Named(vec![
            ("a1".to_owned(), Value::Int(1)),
            ("a3".to_owned(), Value::Int(3)),
        ]),
    };
    assert_eq!(
        resolve_call(&desc, &env, &no_identity()),
        Err(DispatchError::ArgumentNotFound("a2".to_owned()))
    );
}

#[test]
fn wrong_arity_is_argument_count_mismatch() {
    let desc = trait1();
    let env = CallEnvelope {
        method: "f1".to_owned(),
        params: Params::Positional(vec![Value::Int(1), Value::Text("x".to_owned())]),
    };
    let mut object = SimpleImpl { calls: 0 };
    assert_eq!(
        dispatch(&desc, &mut object, &env, &no_identity()),
        ResultEnvelope::Failure(ErrorTag::ArgumentCountMismatch, String::new())
    );
    assert_eq!(object.calls, 0);
}

#[test]
fn wrong_kind_is_parse_failure_naming_the_parameter() {
    let desc = trait1();
    let env = CallEnvelope {
        method: "f1".to_owned(),
        params: Params::Positional(vec![Value::Int(1), Value::Int(2), Value::Int(3)]),
    };
    assert_eq!(
        resolve_call(&desc, &env, &no_identity()),
        Err(DispatchError::ParseFailure("a2".to_owned()))
    );
    let env = CallEnvelope {
        method: "f1".to_owned(),
        params: Params::Named(vec![
            ("a1".to_owned(), Value::Int(1)),
            ("a2".to_owned(), Value::Text("x".to_owned())),
            ("a3".to_owned(), Value::Bool(true)),
        ]),
    };
    assert_eq!(
        resolve_call(&desc, &env, &no_identity()),
        Err(DispatchError::ParseFailure("a3".to_owned()))
    );
}

#[test]
fn faulting_object_is_internal_failure() {
    let mut desc = trait1();
    desc.add_method(method("f4", &[], Kind::Unit)).unwrap();
    let mut object = SimpleImpl { calls: 0 };
    let env = encode_positional(&desc.methods[3], &vec![]);
    assert_eq!(
        dispatch(&desc, &mut object, &env, &no_identity()),
        ResultEnvelope::Failure(ErrorTag::InternalFailure, String::new())
    );
    assert_eq!(object.calls, 1);
}

#[test]
fn unit_result_is_null() {
    let desc = trait1();
    let mut object = SimpleImpl { calls: 0 };
    let env = encode_positional(&desc.methods[2], &vec![Value::Int(7)]);
    let result = dispatch(&desc, &mut object, &env, &no_identity());
    assert_eq!(String::from_utf8(encode_result(&result)).unwrap(), "null");
}

#[test]
fn duplicate_parameter_is_refused() {
    let explicit = vec![("a".to_owned(), Kind::Integer), ("a".to_owned(), Kind::Text)];
    let r = MethodDescriptor::new(&"f".to_owned(), &explicit, Kind::Unit, false, false, false);
    assert_eq!(r.unwrap_err(), DescriptorError::DuplicateParameter("a".to_owned()));
    let explicit = vec![("caller_key".to_owned(), Kind::Text)];
    let r = MethodDescriptor::new(&"f".to_owned(), &explicit, Kind::Unit, false, true, false);
    assert_eq!(r.unwrap_err(), DescriptorError::DuplicateParameter("caller_key".to_owned()));
}

#[test]
fn duplicate_method_is_refused() {
    let mut desc = trait1();
    let r = desc.add_method(method("f2", &[], Kind::Unit));
    assert_eq!(r, Err(DescriptorError::DuplicateMethod("f2".to_owned())));
    assert_eq!(desc.methods.len(), 3);
    assert!(desc.is_well_formed());
}

#[test]
fn camel_case_wire_names() {
    assert_eq!(wire_name_of(&"is_bigger_than".to_owned(), true), "IsBiggerThan");
    assert_eq!(wire_name_of(&"is_bigger_than".to_owned(), false), "is_bigger_than");
    let explicit = vec![("new_value".to_owned(), Kind::Integer)];
    let m = MethodDescriptor::new(&"set_value".to_owned(), &explicit, Kind::Unit, true, true, true).unwrap();
    assert_eq!(m.name, "SetValue");
    assert_eq!(m.parameters.len(), 2);
    assert_eq!(m.parameters[0].name, "caller_key");
    assert!(m.parameters[0].is_implicit_caller);
    assert_eq!(m.parameters[1].name, "NewValue");
    let env = encode_named(&m, &vec![Value::Int(4)]);
    assert_eq!(
        String::from_utf8(encode_envelope(&env)).unwrap(),
        r#"{"method":"SetValue","params":{"NewValue":4}}"#
    );
}

#[test]
fn escaped_text_survives_the_envelope() {
    let desc = trait1();
    let args = vec![Value::Int(-9), Value::Text("q\"u\\o\nte\u{1}é".to_owned()), Value::Int(0)];
    let env = encode_named(&desc.methods[0], &args);
    let bytes = encode_envelope(&env);
    assert_eq!(
        String::from_utf8(bytes.clone()).unwrap(),
        "{\"method\":\"f1\",\"params\":{\"a1\":-9,\"a2\":\"q\\\"u\\\\o\\nte\\u0001é\",\"a3\":0}}"
    );
    assert_eq!(decode_envelope(&bytes), Some(env));
}

#[test]
fn list_and_record_arguments_are_checked_by_kind() {
    let mut s = ServiceDescriptor::new("Shapes".to_owned());
    s.add_method(method("area", &[("points", Kind::List), ("style", Kind::Record)], Kind::Integer)).unwrap();
    let points = Value::List(vec![Value::Int(1), Value::Int(2)]);
    let style = Value::Record(vec![("fill".to_owned(), Value::Bool(true))]);
    let env = encode_named(&s.methods[0], &vec![points.clone(), style.clone()]);
    let bytes = encode_envelope(&env);
    assert_eq!(
        String::from_utf8(bytes.clone()).unwrap(),
        r#"{"method":"area","params":{"points":[1,2],"style":{"fill":true}}}"#
    );
    assert_eq!(decode_envelope(&bytes), Some(env.clone()));
    let (_, args) = resolve_call(&s, &env, &no_identity()).unwrap();
    assert_eq!(args, vec![points.clone(), style.clone()]);
    let wrong = encode_positional(&s.methods[0], &vec![style, points]);
    assert_eq!(resolve_call(&s, &wrong, &no_identity()), Err(DispatchError::ParseFailure("points".to_owned())));
}
