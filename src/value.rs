//! Values passed as method arguments and results, and their canonical bytes.
//!
//! The canonical form is compact JSON text: `null`, `true`, `false`, a decimal
//! integer without leading zeros, a string in double quotes whose bytes are
//! escaped as compact JSON writers do (`\"`, `\\`, `\n`, `\r`, `\t`, `\b`, `\f`,
//! and `\u00xx` with lowercase hex for the other control bytes), a list
//! `[v,...]`, or a record of named fields `{"name":v,...}` in field order.
use vstd::prelude::*;
use vstd::utf8::*;

verus! {

/// A value as the wire carries it.
#[derive(Debug, PartialEq)]
pub enum Value {
    Null,
    Bool(bool),
    Int(i64),
    Text(String),
    /// An ordered sequence of values.
    List(Vec<Value>),
    /// Named fields, in order.
    Record(Vec<(String, Value)>),
}

/// The mathematical model of a [`Value`].
pub enum ValueView {
    Null,
    Bool(bool),
    Int(int),
    Text(Seq<char>),
    List(Seq<ValueView>),
    Record(Seq<(Seq<char>, ValueView)>),
}

impl View for Value {
    type V = ValueView;

    open spec fn view(&self) -> ValueView
        decreases self,
    {
        match self {
            Value::Null => ValueView::Null,
            Value::Bool(b) => ValueView::Bool(*b),
            Value::Int(n) => ValueView::Int(*n as int),
            Value::Text(s) => ValueView::Text(s@),
            Value::List(vs) => ValueView::List(
                Seq::new(
                    vs@.len(),
                    |i: int|
                        if 0 <= i < vs@.len() {
                            vs@[i].view()
                        } else {
                            ValueView::Null
                        },
                ),
            ),
            Value::Record(es) => ValueView::Record(entries_view(es@)),
        }
    }
}

/// The models of a sequence of values.
pub open spec fn values_view(vs: Seq<Value>) -> Seq<ValueView> {
    Seq::new(vs.len(), |i: int| if 0 <= i < vs.len() { vs[i]@ } else { ValueView::Null })
}

/// The models of a sequence of named values.
pub open spec fn entries_view(es: Seq<(String, Value)>) -> Seq<(Seq<char>, ValueView)>
    decreases es,
{
    Seq::new(
        es.len(),
        |i: int| if 0 <= i < es.len() { (es[i].0@, es[i].1@) } else { (Seq::empty(), ValueView::Null) },
    )
}

proof fn lemma_list_view(vs: Vec<Value>)
    ensures
        Value::List(vs)@ == ValueView::List(values_view(vs@)),
{
    assert(values_view(vs@) =~= match Value::List(vs)@ {
        ValueView::List(ws) => ws,
        _ => Seq::empty(),
    });
}

proof fn lemma_record_view(es: Vec<(String, Value)>)
    ensures
        Value::Record(es)@ == ValueView::Record(entries_view(es@)),
{
}

/// The declared type of a parameter or a result.
#[derive(Clone, Copy, Debug, PartialEq, Eq, Structural)]
pub enum Kind {
    Unit,
    Bool,
    Integer,
    Text,
    List,
    Record,
}

/// The kind that a value has.
pub open spec fn kind_of(v: ValueView) -> Kind {
    match v {
        ValueView::Null => Kind::Unit,
        ValueView::Bool(_) => Kind::Bool,
        ValueView::Int(_) => Kind::Integer,
        ValueView::Text(_) => Kind::Text,
        ValueView::List(_) => Kind::List,
        ValueView::Record(_) => Kind::Record,
    }
}

/// A value that the representation can hold: integers within `i64`, at
/// every depth.
pub open spec fn value_in_range(v: ValueView) -> bool
    decreases v,
{
    match v {
        ValueView::Int(n) => i64::MIN <= n <= i64::MAX,
        ValueView::List(vs) => forall|k: int| 0 <= k < vs.len() ==> value_in_range(#[trigger] vs[k]),
        ValueView::Record(es) => forall|k: int| 0 <= k < es.len() ==> value_in_range(#[trigger] es[k].1),
        _ => true,
    }
}

/// Every value of a list is within range.
pub open spec fn values_in_range(vs: Seq<ValueView>) -> bool {
    forall|k: int| 0 <= k < vs.len() ==> value_in_range(#[trigger] vs[k])
}

/// Every value of a list of entries is within range.
pub open spec fn entries_in_range(es: Seq<(Seq<char>, ValueView)>) -> bool {
    forall|k: int| 0 <= k < es.len() ==> value_in_range(#[trigger] es[k].1)
}

/// Why bytes could not be decoded as a value of the expected kind.
#[derive(Clone, Copy, Debug, PartialEq, Eq, Structural)]
pub enum DecodeError {
    /// The bytes are not the canonical form of any value.
    Malformed,
    /// The bytes hold a value of another kind than the one expected.
    TypeMismatch,
}

/// Duplicates a value.
pub fn copy_value(v: &Value) -> (r: Value)
    ensures
        r@ == v@,
    decreases v@,
{
    match v {
        Value::Null => Value::Null,
        Value::Bool(b) => Value::Bool(*b),
        Value::Int(n) => Value::Int(*n),
        Value::Text(s) => Value::Text(s.clone()),
        Value::List(vs) => {
            let mut out: Vec<Value> = Vec::new();
            let mut i: usize = 0;
            while i < vs.len()
                invariant
                    i <= vs@.len(),
                    *v == Value::List(*vs),
                    values_view(out@) =~= values_view(vs@).subrange(0, i as int),
                decreases vs@.len() - i,
            {
                proof {
                    lemma_list_view(*vs);
                    let ws = values_view(vs@);
                    assert(ws[i as int] == vs@[i as int]@);
                    let x = v@;
                    assert(x->List_0 == ws);
                    assert(decreases_to!(x => x->List_0));
                    assert(decreases_to!(x->List_0 => x->List_0[i as int]));
                    assert(decreases_to!(v@ => vs@[i as int]@));
                }
                let c = copy_value(&vs[i]);
                let ghost prev = out@;
                out.push(c);
                assert(values_view(out@) =~= values_view(prev).push(vs@[i as int]@));
                assert(values_view(vs@).subrange(0, i + 1) =~= values_view(vs@).subrange(0, i as int).push(
                    vs@[i as int]@,
                ));
                i = i + 1;
            }
            assert(values_view(vs@).subrange(0, vs@.len() as int) =~= values_view(vs@));
            proof {
                lemma_list_view(out);
                lemma_list_view(*vs);
            }
            Value::List(out)
        },
        Value::Record(es) => {
            let mut out: Vec<(String, Value)> = Vec::new();
            let mut i: usize = 0;
            while i < es.len()
                invariant
                    i <= es@.len(),
                    *v == Value::Record(*es),
                    entries_view(out@) =~= entries_view(es@).subrange(0, i as int),
                decreases es@.len() - i,
            {
                proof {
                    lemma_record_view(*es);
                    let x = v@;
                    assert(x->Record_0 == entries_view(es@));
                    assert(x->Record_0[i as int].1 == es@[i as int].1@);
                    assert(decreases_to!(x => x->Record_0));
                    assert(decreases_to!(x->Record_0 => x->Record_0[i as int]));
                    assert(decreases_to!(x->Record_0[i as int] => x->Record_0[i as int].1));
                    assert(decreases_to!(v@ => es@[i as int].1@));
                }
                let c = copy_value(&es[i].1);
                let ghost prev = out@;
                out.push((es[i].0.clone(), c));
                assert(entries_view(out@) =~= entries_view(prev).push((es@[i as int].0@, es@[i as int].1@)));
                assert(entries_view(es@).subrange(0, i + 1) =~= entries_view(es@).subrange(0, i as int).push(
                    (es@[i as int].0@, es@[i as int].1@),
                ));
                i = i + 1;
            }
            assert(entries_view(es@).subrange(0, es@.len() as int) =~= entries_view(es@));
            proof {
                lemma_record_view(out);
                lemma_record_view(*es);
            }
            Value::Record(out)
        },
    }
}

/// The model of every value is within range.
pub proof fn lemma_view_in_range(v: Value)
    ensures
        value_in_range(v@),
    decreases v,
{
    if let Value::List(vs) = v {
        assert forall|k: int| 0 <= k < vs@.len() implies value_in_range(#[trigger] values_view(vs@)[k]) by {
            lemma_view_in_range(vs@[k]);
        }
        lemma_list_view(vs);
    }
    if let Value::Record(es) = v {
        assert forall|k: int| 0 <= k < es@.len() implies value_in_range(#[trigger] entries_view(es@)[k].1) by {
            lemma_view_in_range(es@[k].1);
        }
        lemma_record_view(es);
    }
}

impl Clone for Value {
    fn clone(&self) -> Self {
        copy_value(self)
    }
}

/// The kind of a value.
pub fn value_kind(v: &Value) -> (k: Kind)
    ensures
        k == kind_of(v@),
{
    match v {
        Value::Null => Kind::Unit,
        Value::Bool(_) => Kind::Bool,
        Value::Int(_) => Kind::Integer,
        Value::Text(_) => Kind::Text,
        Value::List(_) => Kind::List,
        Value::Record(_) => Kind::Record,
    }
}

/// Checks a decoded value against the kind that was declared for it.
pub fn check_kind(v: Value, expected: Kind) -> (r: Result<Value, DecodeError>)
    ensures
        kind_of(v@) == expected ==> (r matches Ok(w) && w@ == v@),
        kind_of(v@) != expected ==> r == Err::<Value, DecodeError>(DecodeError::TypeMismatch),
{
    if value_kind(&v) == expected {
        Ok(v)
    } else {
        Err(DecodeError::TypeMismatch)
    }
}

// ---------------------------------------------------------------------------
// Canonical bytes
/// The decimal digits of a natural number, most significant first.
pub open spec fn decimal(n: nat) -> Seq<u8>
    decreases n,
{
    if n < 10 {
        seq![(48 + n) as u8]
    } else {
        decimal(n / 10).push((48 + n % 10) as u8)
    }
}

/// The canonical bytes of an integer.
pub open spec fn int_bytes(n: int) -> Seq<u8> {
    if n < 0 {
        seq![45u8] + decimal((-n) as nat)
    } else {
        decimal(n as nat)
    }
}

/// A lowercase hexadecimal digit.
pub open spec fn hex_digit(d: u8) -> u8 {
    if d < 10 {
        (48 + d) as u8
    } else {
        (87 + d) as u8
    }
}

/// How one byte of a string is written between the quotes.
pub open spec fn escape_byte(b: u8) -> Seq<u8> {
    if b == 34 {
        seq![92u8, 34u8]
    } else if b == 92 {
        seq![92u8, 92u8]
    } else if b == 10 {
        seq![92u8, 110u8]
    } else if b == 13 {
        seq![92u8, 114u8]
    } else if b == 9 {
        seq![92u8, 116u8]
    } else if b == 8 {
        seq![92u8, 98u8]
    } else if b == 12 {
        seq![92u8, 102u8]
    } else if b < 32 {
        seq![92u8, 117u8, 48u8, 48u8, hex_digit(b / 16), hex_digit(b % 16)]
    } else {
        seq![b]
    }
}

/// The escaped form of a byte string.
pub open spec fn escape(s: Seq<u8>) -> Seq<u8>
    decreases s.len(),
{
    if s.len() == 0 {
        Seq::empty()
    } else {
        escape(s.drop_last()) + escape_byte(s.last())
    }
}

/// The canonical bytes of a string: its UTF-8 bytes, escaped, in double quotes.
pub open spec fn text_bytes(s: Seq<char>) -> Seq<u8> {
    seq![34u8] + escape(encode_utf8(s)) + seq![34u8]
}

/// The canonical bytes of a value.
pub open spec fn value_bytes(v: ValueView) -> Seq<u8>
    decreases v, 0int,
{
    match v {
        ValueView::Null => seq![110u8, 117u8, 108u8, 108u8],
        ValueView::Bool(true) => seq![116u8, 114u8, 117u8, 101u8],
        ValueView::Bool(false) => seq![102u8, 97u8, 108u8, 115u8, 101u8],
        ValueView::Int(n) => int_bytes(n),
        ValueView::Text(s) => text_bytes(s),
        ValueView::List(vs) => seq![91u8] + items_bytes(vs) + seq![93u8],
        ValueView::Record(es) => seq![123u8] + entries_bytes(es) + seq![125u8],
    }
}

fn write_decimal(n: u64, out: &mut Vec<u8>)
    ensures
        final(out)@ == old(out)@ + decimal(n as nat),
    decreases n,
{
    if n >= 10 {
        write_decimal(n / 10, out);
    }
    let d: u8 = (n % 10) as u8;
    out.push(48 + d);
    proof {
        if n < 10 {
            assert(final(out)@ =~= old(out)@ + decimal(n as nat));
        } else {
            assert(decimal(n as nat) == decimal((n / 10) as nat).push((48 + n % 10) as u8));
            assert(final(out)@ =~= old(out)@ + decimal(n as nat));
        }
    }
}

/// Appends the canonical bytes of an integer.
pub fn write_int(n: i64, out: &mut Vec<u8>)
    ensures
        final(out)@ == old(out)@ + int_bytes(n as int),
{
    if n < 0 {
        out.push(45);
        let m: u64 = ((-(n + 1)) as u64) + 1;
        assert(m as int == -(n as int));
        write_decimal(m, out);
        assert(final(out)@ =~= old(out)@ + int_bytes(n as int));
    } else {
        write_decimal(n as u64, out);
    }
}

fn hex(d: u8) -> (r: u8)
    requires
        d < 16,
    ensures
        r == hex_digit(d),
{
    if d < 10 {
        48 + d
    } else {
        87 + d
    }
}

fn write_escaped_byte(b: u8, out: &mut Vec<u8>)
    ensures
        final(out)@ == old(out)@ + escape_byte(b),
{
    if b == 34 || b == 92 {
        out.push(92);
        out.push(b);
    } else if b == 10 {
        out.push(92);
        out.push(110);
    } else if b == 13 {
        out.push(92);
        out.push(114);
    } else if b == 9 {
        out.push(92);
        out.push(116);
    } else if b == 8 {
        out.push(92);
        out.push(98);
    } else if b == 12 {
        out.push(92);
        out.push(102);
    } else if b < 32 {
        out.push(92);
        out.push(117);
        out.push(48);
        out.push(48);
        out.push(hex(b / 16));
        out.push(hex(b % 16));
    } else {
        out.push(b);
    }
    assert(final(out)@ =~= old(out)@ + escape_byte(b));
}

/// Appends the canonical bytes of a string.
pub fn write_text(s: &str, out: &mut Vec<u8>)
    ensures
        final(out)@ == old(out)@ + text_bytes(s@),
{
    let bytes = s.as_bytes();
    let ghost b = bytes@;
    assert(b == encode_utf8(s@));
    out.push(34);
    let ghost start = out@;
    let mut i: usize = 0;
    while i < bytes.len()
        invariant
            b == bytes@,
            i <= b.len(),
            out@ == start + escape(b.subrange(0, i as int)),
        decreases b.len() - i,
    {
        write_escaped_byte(bytes[i], out);
        proof {
            let p = b.subrange(0, i + 1);
            assert(p.drop_last() =~= b.subrange(0, i as int));
            assert(p.last() == b[i as int]);
            assert(escape(p) == escape(p.drop_last()) + escape_byte(p.last()));
            assert(out@ =~= start + escape(p));
        }
        i = i + 1;
    }
    assert(b.subrange(0, b.len() as int) =~= b);
    out.push(34);
    assert(out@ =~= old(out)@ + text_bytes(s@));
}

/// Appends the canonical bytes of a value.
pub fn write_value(v: &Value, out: &mut Vec<u8>)
    ensures
        final(out)@ == old(out)@ + value_bytes(v@),
    decreases v, 1int,
{
    match v {
        Value::Null => {
            out.push(110);
            out.push(117);
            out.push(108);
            out.push(108);
        },
        Value::Bool(true) => {
            out.push(116);
            out.push(114);
            out.push(117);
            out.push(101);
        },
        Value::Bool(false) => {
            out.push(102);
            out.push(97);
            out.push(108);
            out.push(115);
            out.push(101);
        },
        Value::Int(n) => {
            write_int(*n, out);
        },
        Value::Text(s) => {
            write_text(s.as_str(), out);
        },
        Value::List(vs) => {
            proof {
                lemma_list_view(*vs);
            }
            out.push(91);
            write_items(vs, out);
            out.push(93);
        },
        Value::Record(es) => {
            proof {
                lemma_record_view(*es);
            }
            out.push(123);
            write_entries(es, out);
            out.push(125);
        },
    }
    assert(out@ =~= old(out)@ + value_bytes(v@));
}

/// The canonical bytes of a value.
pub fn encode_value(v: &Value) -> (r: Vec<u8>)
    ensures
        r@ == value_bytes(v@),
{
    let mut out: Vec<u8> = Vec::new();
    write_value(v, &mut out);
    assert(out@ =~= value_bytes(v@));
    out
}


// ---------------------------------------------------------------------------
// Decoding
/// The number that a string of decimal digits denotes.
pub open spec fn digits_value(s: Seq<u8>) -> nat
    decreases s.len(),
{
    if s.len() == 0 {
        0
    } else {
        digits_value(s.drop_last()) * 10 + (s.last() - 48) as nat
    }
}

/// Decimal digits without a superfluous leading zero.
pub open spec fn canonical_digits(s: Seq<u8>) -> bool {
    &&& s.len() > 0
    &&& forall|i: int| 0 <= i < s.len() ==> 48 <= #[trigger] s[i] <= 57
    &&& (s[0] == 48 ==> s.len() == 1)
}

proof fn lemma_digits_positive(s: Seq<u8>)
    requires
        canonical_digits(s),
        s[0] != 48,
    ensures
        digits_value(s) >= 1,
    decreases s.len(),
{
    if s.len() > 1 {
        let t = s.drop_last();
        assert(t[0] == s[0]);
        assert(canonical_digits(t));
        lemma_digits_positive(t);
    }
}

proof fn lemma_decimal_of_digits(s: Seq<u8>)
    requires
        canonical_digits(s),
    ensures
        decimal(digits_value(s)) == s,
    decreases s.len(),
{
    if s.len() == 1 {
        assert(s.drop_last() =~= Seq::<u8>::empty());
        assert(digits_value(s.drop_last()) == 0);
        assert(digits_value(s) == (s[0] - 48) as nat);
        assert(decimal(digits_value(s)) == seq![(48 + digits_value(s)) as u8]);
        assert(decimal(digits_value(s)) =~= s);
    } else {
        let t = s.drop_last();
        assert(t[0] == s[0]);
        assert(canonical_digits(t));
        lemma_digits_positive(t);
        lemma_decimal_of_digits(t);
        let vt = digits_value(t);
        let d = (s.last() - 48) as nat;
        let n = vt * 10 + d;
        assert(n / 10 == vt && n % 10 == d) by (nonlinear_arith)
            requires
                n == vt * 10 + d,
                d < 10,
        ;
        assert(n >= 10);
        assert(decimal(n) == decimal(n / 10).push((48 + n % 10) as u8));
        assert(decimal(n) =~= t.push(s.last()));
        assert(t.push(s.last()) =~= s);
    }
}

/// Relies on `String::from_utf8`: it succeeds exactly on valid UTF-8 and then
/// holds the characters that the bytes encode.
#[verifier::external_body]
fn string_from_utf8(b: Vec<u8>) -> (r: Option<String>)
    ensures
        r is Some <==> valid_utf8(b@),
        r matches Some(s) ==> s@ == decode_utf8(b@),
{
    String::from_utf8(b).ok()
}

fn parse_hex(c: u8) -> (r: Option<u8>)
    ensures
        r matches Some(d) ==> d < 16 && hex_digit(d) == c,
        r is None ==> !(48 <= c <= 57 || 97 <= c <= 102),
{
    if 48 <= c && c <= 57 {
        Some(c - 48)
    } else if 97 <= c && c <= 102 {
        Some(c - 87)
    } else {
        None
    }
}

fn parse_digits(b: &Vec<u8>, pos: usize, limit: u64) -> (r: Option<(u64, usize)>)
    requires
        pos <= b.len(),
        limit >= 9,
    ensures
        r matches Some((n, end)) ==> {
            &&& pos < end <= b.len()
            &&& canonical_digits(b@.subrange(pos as int, end as int))
            &&& n as nat == digits_value(b@.subrange(pos as int, end as int))
            &&& n <= limit
            &&& ends_value(b@.subrange(end as int, b.len() as int))
        },
        forall|d: Seq<u8>, x: Seq<u8>|
            canonical_digits(d) && digits_value(d) <= limit && ends_value(x) && b@.subrange(
                pos as int,
                b.len() as int,
            ) == #[trigger] (d + x) ==> r == Some((digits_value(d) as u64, (pos + d.len()) as usize)),
{
    let ghost canon = exists|d: Seq<u8>, x: Seq<u8>|
        canonical_digits(d) && digits_value(d) <= limit && ends_value(x) && b@.subrange(
            pos as int,
            b.len() as int,
        ) == #[trigger] (d + x);
    let ghost target = choose|d: Seq<u8>, x: Seq<u8>|
        canonical_digits(d) && digits_value(d) <= limit && ends_value(x) && b@.subrange(
            pos as int,
            b.len() as int,
        ) == #[trigger] (d + x);
    let ghost dd = target.0;
    proof {
        assert forall|d: Seq<u8>, x: Seq<u8>|
            canonical_digits(d) && digits_value(d) <= limit && ends_value(x) && b@.subrange(
                pos as int,
                b.len() as int,
            ) == #[trigger] (d + x) implies canon by {}
        if canon {
            assert(b@.subrange(pos as int, b.len() as int) == dd + target.1);
            assert forall|k: int| 0 <= k < dd.len() implies b@[pos + k] == #[trigger] dd[k] by {
                assert(b@.subrange(pos as int, b.len() as int)[k] == (dd + target.1)[k]);
            }
            if target.1.len() > 0 {
                assert(b@[pos + dd.len()] == (dd + target.1)[dd.len() as int]);
            }
        }
    }
    let mut i: usize = pos;
    let mut acc: u64 = 0;
    assert(b@.subrange(pos as int, pos as int) =~= Seq::<u8>::empty());
    while i < b.len() && 48 <= b[i] && b[i] <= 57
        invariant
            pos <= i <= b.len(),
            forall|k: int| pos <= k < i ==> 48 <= #[trigger] b@[k] <= 57,
            acc as nat == digits_value(b@.subrange(pos as int, i as int)),
            acc <= limit,
            limit >= 9,
            canon ==> i <= pos + dd.len() && b@.subrange(pos as int, i as int) == dd.subrange(0, i - pos),
            canon ==> canonical_digits(dd) && digits_value(dd) <= limit,
            canon ==> forall|k: int| 0 <= k < dd.len() ==> b@[pos + k] == #[trigger] dd[k],
            canon ==> pos + dd.len() == b.len() || !(48 <= b@[pos + dd.len()] <= 57),
            canon ==> pos + dd.len() <= b.len(),
            forall|d: Seq<u8>, x: Seq<u8>|
                canonical_digits(d) && digits_value(d) <= limit && ends_value(x) && b@.subrange(
                    pos as int,
                    b.len() as int,
                ) == #[trigger] (d + x) ==> canon,
        decreases b.len() - i,
    {
        let d: u64 = (b[i] - 48) as u64;
        proof {
            if canon {
                if i == pos + dd.len() {
                    assert(false);
                }
                let p1 = dd.subrange(0, i - pos + 1);
                assert(b@.subrange(pos as int, i + 1) =~= p1);
                assert(p1.drop_last() =~= dd.subrange(0, i - pos));
                lemma_digits_prefix(dd, i - pos + 1);
            }
        }
        if acc > (limit - d) / 10 {
            proof {
                if canon {
                    assert(acc * 10 + d <= limit);
                    assert(acc <= (limit - d) / 10) by (nonlinear_arith)
                        requires
                            acc * 10 + d <= limit,
                            d <= limit,
                    ;
                }
            }
            return None;
        }
        assert(acc * 10 + d <= limit) by (nonlinear_arith)
            requires
                acc <= (limit - d) / 10,
                d <= limit,
        ;
        proof {
            let s = b@.subrange(pos as int, i + 1);
            assert(s.drop_last() =~= b@.subrange(pos as int, i as int));
        }
        acc = acc * 10 + d;
        i = i + 1;
        proof {
            if canon {
                assert(b@.subrange(pos as int, i as int) =~= dd.subrange(0, i - pos));
            }
        }
    }
    proof {
        assert forall|d: Seq<u8>, x: Seq<u8>|
            canonical_digits(d) && digits_value(d) <= limit && ends_value(x) && b@.subrange(
                pos as int,
                b.len() as int,
            ) == #[trigger] (d + x) implies canon && d == dd && x == target.1 by {
            lemma_digit_run(d, x);
            lemma_digit_run(target.0, target.1);
            let w = b@.subrange(pos as int, b.len() as int);
            assert(d =~= w.subrange(0, d.len() as int));
            assert(target.0 =~= w.subrange(0, d.len() as int));
            assert(x =~= w.subrange(d.len() as int, w.len() as int));
            assert(target.1 =~= w.subrange(d.len() as int, w.len() as int));
        }
        if canon {
            if i < pos + dd.len() {
                assert(b@[pos + (i - pos)] == dd[i - pos]);
                assert(48 <= b@[i as int] <= 57);
            }
            assert(i == pos + dd.len());
            assert(dd.subrange(0, dd.len() as int) =~= dd);
        }
        if i < b.len() {
            assert(b@.subrange(i as int, b.len() as int)[0] == b@[i as int]);
        }
    }
    if i == pos {
        return None;
    }
    if b[pos] == 48 && i > pos + 1 {
        return None;
    }
    Some((acc, i))
}

proof fn lemma_digits_prefix(s: Seq<u8>, j: int)
    requires
        0 <= j <= s.len(),
    ensures
        digits_value(s.subrange(0, j)) <= digits_value(s),
    decreases s.len() - j,
{
    if j < s.len() {
        let t = s.subrange(0, j + 1);
        assert(t.drop_last() =~= s.subrange(0, j));
        lemma_digits_prefix(s, j + 1);
    } else {
        assert(s.subrange(0, j) =~= s);
    }
}

proof fn lemma_decimal_canonical(m: nat)
    ensures
        canonical_digits(decimal(m)),
        m >= 1 ==> decimal(m)[0] != 48,
    decreases m,
{
    lemma_decimal_digits(m);
    if m >= 10 {
        lemma_decimal_canonical(m / 10);
        assert(decimal(m)[0] == decimal(m / 10)[0]);
    }
}

fn parse_int_at(b: &Vec<u8>, pos: usize) -> (r: Option<(i64, usize)>)
    requires
        pos < b.len(),
    ensures
        r matches Some((n, end)) ==> pos < end <= b.len() && b@.subrange(pos as int, end as int)
            == int_bytes(n as int) && ends_value(b@.subrange(end as int, b.len() as int)),
        forall|n: int, x: Seq<u8>|
            i64::MIN <= n <= i64::MAX && ends_value(x) && b@.subrange(pos as int, b.len() as int)
                == #[trigger] (int_bytes(n) + x) ==> (r matches Some((m, end)) && m == n && end == pos
                + int_bytes(n).len()),
{
    proof {
        assert forall|n: int, x: Seq<u8>|
            i64::MIN <= n <= i64::MAX && ends_value(x) && b@.subrange(pos as int, b.len() as int)
                == #[trigger] (int_bytes(n) + x) implies {
            &&& (n < 0 ==> {
                &&& b@[pos as int] == 45
                &&& pos + 1 < b.len()
                &&& b@[pos + 1] != 48
                &&& b@.subrange(pos + 1, b.len() as int) == decimal((-n) as nat) + x
            })
            &&& (n >= 0 ==> b@[pos as int] != 45)
        } by {
            let w = b@.subrange(pos as int, b.len() as int);
            lemma_decimal_canonical((-n) as nat);
            lemma_decimal_canonical(n as nat);
            assert(b@[pos as int] == w[0]);
            if n < 0 {
                assert(w.drop_first() =~= decimal((-n) as nat) + x);
                assert(b@.subrange(pos + 1, b.len() as int) =~= w.drop_first());
                assert(b@[pos + 1] == w[1]);
            }
        }
    }
    if b[pos] == 45 {
        if pos + 1 >= b.len() || b[pos + 1] == 48 {
            return None;
        }
        proof {
            assert forall|n: int, x: Seq<u8>|
                i64::MIN <= n <= i64::MAX && ends_value(x) && b@.subrange(pos as int, b.len() as int)
                    == #[trigger] (int_bytes(n) + x) implies canonical_digits(decimal((-n) as nat))
                && digits_value(decimal((-n) as nat)) <= 9223372036854775808 && b@.subrange(
                pos + 1,
                b.len() as int,
            ) == decimal((-n) as nat) + x by {
                lemma_decimal_canonical((-n) as nat);
                lemma_decimal_digits((-n) as nat);
                if n >= 0 {
                    lemma_decimal_canonical(n as nat);
                }
            }
        }
        match parse_digits(b, pos + 1, 9223372036854775808) {
            None => None,
            Some((m, end)) => {
                let ghost ds = b@.subrange(pos + 1, end as int);
                proof {
                    lemma_decimal_of_digits(ds);
                    lemma_digits_positive(ds);
                }
                let n: i64 = if m == 9223372036854775808 {
                    i64::MIN
                } else {
                    -(m as i64)
                };
                assert(b@.subrange(pos as int, end as int) =~= seq![45u8] + ds);
                proof {
                    assert forall|n2: int, x: Seq<u8>|
                        i64::MIN <= n2 <= i64::MAX && ends_value(x) && b@.subrange(pos as int, b.len() as int)
                            == #[trigger] (int_bytes(n2) + x) implies n2 == n && end == pos + int_bytes(n2).len() by {
                        lemma_decimal_canonical((-n2) as nat);
                        lemma_decimal_digits((-n2) as nat);
                    }
                }
                Some((n, end))
            },
        }
    } else {
        proof {
            assert forall|n: int, x: Seq<u8>|
                i64::MIN <= n <= i64::MAX && ends_value(x) && b@.subrange(pos as int, b.len() as int)
                    == #[trigger] (int_bytes(n) + x) implies canonical_digits(decimal(n as nat))
                && digits_value(decimal(n as nat)) <= 9223372036854775807 && b@.subrange(
                pos as int,
                b.len() as int,
            ) == decimal(n as nat) + x by {
                lemma_decimal_canonical(n as nat);
                lemma_decimal_digits(n as nat);
            }
        }
        match parse_digits(b, pos, 9223372036854775807) {
            None => None,
            Some((m, end)) => {
                proof {
                    lemma_decimal_of_digits(b@.subrange(pos as int, end as int));
                    assert forall|n2: int, x: Seq<u8>|
                        i64::MIN <= n2 <= i64::MAX && ends_value(x) && b@.subrange(pos as int, b.len() as int)
                            == #[trigger] (int_bytes(n2) + x) implies n2 == m && end == pos + int_bytes(n2).len() by {
                        lemma_decimal_digits(n2 as nat);
                    }
                }
                Some((m as i64, end))
            },
        }
    }
}

pub(crate) fn parse_literal(b: &Vec<u8>, pos: usize, lit: &[u8]) -> (r: bool)
    requires
        pos <= b.len(),
    ensures
        r == (pos + lit@.len() <= b.len() && b@.subrange(pos as int, pos + lit@.len()) == lit@),
{
    if lit.len() > b.len() - pos {
        return false;
    }
    let mut k: usize = 0;
    while k < lit.len()
        invariant
            pos + lit@.len() <= b.len(),
            k <= lit@.len(),
            b@.subrange(pos as int, pos + k) == lit@.subrange(0, k as int),
        decreases lit@.len() - k,
    {
        if b[pos + k] != lit[k] {
            assert(b@.subrange(pos as int, pos + lit@.len())[k as int] != lit@[k as int]);
            return false;
        }
        assert(b@.subrange(pos as int, pos + k + 1) =~= lit@.subrange(0, k + 1));
        k = k + 1;
    }
    assert(lit@.subrange(0, lit@.len() as int) =~= lit@);
    true
}

/// The bytes from `pos` on are the canonical bytes of a string whose raw
/// bytes are `raw`, followed by more.
spec fn text_layout(b: Seq<u8>, pos: int, raw: Seq<u8>) -> bool {
    &&& 0 <= pos
    &&& pos + escape(raw).len() + 2 <= b.len()
    &&& b[pos] == 34
    &&& b.subrange(pos + 1, pos + 1 + escape(raw).len()) == escape(raw)
    &&& b[pos + 1 + escape(raw).len()] == 34
}

proof fn lemma_text_layout(b: Seq<u8>, pos: int, t: Seq<char>, x: Seq<u8>)
    requires
        0 <= pos <= b.len(),
        b.subrange(pos, b.len() as int) == text_bytes(t) + x,
    ensures
        text_layout(b, pos, encode_utf8(t)),
{
    let raw = encode_utf8(t);
    let n = escape(raw).len() as int;
    let w = b.subrange(pos, b.len() as int);
    assert(text_bytes(t).len() == n + 2);
    assert(w.len() == b.len() - pos);
    assert(w[0] == 34);
    assert(b[pos] == w[0]);
    assert(w.subrange(1, 1 + n) =~= escape(raw));
    assert(b.subrange(pos + 1, pos + 1 + n) =~= w.subrange(1, 1 + n));
    assert(w[1 + n] == 34);
    assert(b[pos + 1 + n] == w[1 + n]);
}

/// What the escape unit of the `k`-th raw byte looks like where it stands.
proof fn lemma_unit_at(b: Seq<u8>, pos: int, raw: Seq<u8>, k: int)
    requires
        text_layout(b, pos, raw),
        0 <= k <= raw.len(),
    ensures
        ({
            let i = pos + 1 + escape(raw.subrange(0, k)).len();
            &&& i < b.len()
            &&& k == raw.len() ==> b[i] == 34
            &&& k < raw.len() ==> {
                let a = raw[k];
                let e = escape_byte(a);
                &&& i + e.len() < b.len()
                &&& b.subrange(i, i + e.len()) == e
                &&& b[i] != 34
                &&& (b[i] == 92 <==> (a == 34 || a == 92 || a < 32))
                &&& (a >= 32 && a != 34 && a != 92 ==> b[i] == a)
                &&& (a == 34 ==> b[i + 1] == 34)
                &&& (a == 92 ==> b[i + 1] == 92)
                &&& (a == 10 ==> b[i + 1] == 110)
                &&& (a == 13 ==> b[i + 1] == 114)
                &&& (a == 9 ==> b[i + 1] == 116)
                &&& (a == 8 ==> b[i + 1] == 98)
                &&& (a == 12 ==> b[i + 1] == 102)
                &&& (a < 32 && a != 10 && a != 13 && a != 9 && a != 8 && a != 12 ==> {
                    &&& b[i + 1] == 117
                    &&& b[i + 2] == 48
                    &&& b[i + 3] == 48
                    &&& b[i + 4] == hex_digit(a / 16)
                    &&& b[i + 5] == hex_digit(a % 16)
                    &&& a / 16 <= 1
                })
                &&& (b[i] != 92 ==> b[i] >= 32)
                &&& (b[i] == 92 ==> i + 1 < b.len() && (b[i + 1] == 34 || b[i + 1] == 92 || b[i + 1] == 110
                    || b[i + 1] == 114 || b[i + 1] == 116 || b[i + 1] == 98 || b[i + 1] == 102 || b[i + 1]
                    == 117))
                &&& (b[i] == 92 && b[i + 1] == 117 ==> {
                    &&& i + 5 < b.len()
                    &&& b[i + 2] == 48
                    &&& b[i + 3] == 48
                    &&& (b[i + 4] == 48 || b[i + 4] == 49)
                    &&& (48 <= b[i + 5] <= 57 || 97 <= b[i + 5] <= 102)
                    &&& a < 32 && a != 10 && a != 13 && a != 9 && a != 8 && a != 12
                })
            }
        }),
{
    let pre = raw.subrange(0, k);
    let post = raw.subrange(k, raw.len() as int);
    assert(raw =~= pre + post);
    lemma_escape_concat(pre, post);
    let i = pos + 1 + escape(pre).len();
    let n = escape(raw).len() as int;
    if k < raw.len() {
        let a = raw[k];
        let tail = post.drop_first();
        assert(post =~= seq![a] + tail);
        lemma_escape_concat(seq![a], tail);
        assert(seq![a].drop_last() =~= Seq::<u8>::empty());
        assert(escape(seq![a]) == escape(seq![a].drop_last()) + escape_byte(seq![a].last()));
        assert(escape(Seq::<u8>::empty()) =~= Seq::<u8>::empty());
        assert(escape(seq![a]) =~= escape_byte(a));
        let e = escape_byte(a);
        assert(escape(raw) =~= escape(pre) + e + escape(tail));
        assert forall|j: int| 0 <= j < e.len() implies b[i + j] == #[trigger] e[j] by {
            assert(b.subrange(pos + 1, pos + 1 + n)[escape(pre).len() + j] == escape(raw)[escape(pre).len() + j]);
        }
        assert(b.subrange(i, i + e.len()) =~= e);
        lemma_unescape_unit(a, Seq::empty());
        if a < 32 && a != 10 && a != 13 && a != 9 && a != 8 && a != 12 {
            assert(e.len() == 6);
            assert(b[i + 4] == e[4] && b[i + 5] == e[5]);
        } else if a == 34 || a == 92 || a == 10 || a == 13 || a == 9 || a == 8 || a == 12 {
            assert(e.len() == 2);
            assert(b[i] == e[0] && b[i + 1] == e[1]);
        } else {
            assert(e.len() == 1);
            assert(b[i] == e[0]);
        }
    } else {
        assert(post.len() == 0);
        assert(escape(post) =~= Seq::<u8>::empty());
        assert(escape(pre) == escape(raw));
    }
}

pub(crate) fn parse_text_at(b: &Vec<u8>, pos: usize) -> (r: Option<(String, usize)>)
    requires
        pos < b.len(),
    ensures
        r matches Some((s, end)) ==> pos < end <= b.len() && b@.subrange(pos as int, end as int)
            == text_bytes(s@),
        forall|t: Seq<char>, x: Seq<u8>|
            b@.subrange(pos as int, b.len() as int) == #[trigger] (text_bytes(t) + x) ==> (r matches Some((s, end))
                && s@ == t && end == pos + text_bytes(t).len()),
{
    let ghost canon = exists|t: Seq<char>, x: Seq<u8>|
        b@.subrange(pos as int, b.len() as int) == #[trigger] (text_bytes(t) + x);
    let ghost target = choose|t: Seq<char>, x: Seq<u8>|
        b@.subrange(pos as int, b.len() as int) == #[trigger] (text_bytes(t) + x);
    let ghost expected = encode_utf8(target.0);
    proof {
        assert forall|t: Seq<char>, x: Seq<u8>|
            b@.subrange(pos as int, b.len() as int) == #[trigger] (text_bytes(t) + x) implies canon by {}
        if canon {
            lemma_text_layout(b@, pos as int, target.0, target.1);
        }
    }
    if b[pos] != 34 {
        return None;
    }
    let mut out: Vec<u8> = Vec::new();
    let mut i: usize = pos + 1;
    let ghost mut k: int = 0;
    assert(expected.subrange(0, 0) =~= Seq::<u8>::empty());
    assert(out@ =~= Seq::<u8>::empty());
    while i < b.len() && b[i] != 34
        invariant
            pos < i <= b.len(),
            b@.subrange(pos + 1, i as int) == escape(out@),
            canon ==> text_layout(b@, pos as int, expected),
            forall|t: Seq<char>, x: Seq<u8>|
                b@.subrange(pos as int, b.len() as int) == #[trigger] (text_bytes(t) + x) ==> canon,
            canon ==> 0 <= k <= expected.len() && out@ == expected.subrange(0, k) && i == pos + 1
                + escape(expected.subrange(0, k)).len(),
        decreases b.len() - i,
    {
        proof {
            if canon {
                lemma_unit_at(b@, pos as int, expected, k);
            }
        }
        let c = b[i];
        let ghost before = out@;
        let mut next: usize = i + 1;
        if c == 92 {
            if i + 1 >= b.len() {
                return None;
            }
            let e = b[i + 1];
            next = i + 2;
            let raw: u8 = if e == 34 {
                34
            } else if e == 92 {
                92
            } else if e == 110 {
                10
            } else if e == 114 {
                13
            } else if e == 116 {
                9
            } else if e == 98 {
                8
            } else if e == 102 {
                12
            } else if e == 117 {
                if b.len() - i <= 5 || b[i + 2] != 48 || b[i + 3] != 48 {
                    return None;
                }
                let hi = match parse_hex(b[i + 4]) {
                    Some(h) => h,
                    None => {
                        return None;
                    },
                };
                let lo = match parse_hex(b[i + 5]) {
                    Some(h) => h,
                    None => {
                        return None;
                    },
                };
                if hi > 1 {
                    return None;
                }
                let v: u8 = hi * 16 + lo;
                if v == 8 || v == 9 || v == 10 || v == 12 || v == 13 {
                    return None;
                }
                assert(v / 16 == hi && v % 16 == lo);
                next = i + 6;
                assert(b@.subrange(i as int, next as int) =~= escape_byte(v));
                v
            } else {
                return None;
            };
            assert(e != 117 ==> b@.subrange(i as int, next as int) =~= escape_byte(raw));
            out.push(raw);
        } else {
            if c < 32 {
                return None;
            }
            assert(b@.subrange(i as int, next as int) =~= escape_byte(c));
            out.push(c);
        }
        proof {
            assert(out@.drop_last() =~= before);
            assert(escape(out@) == escape(before) + escape_byte(out@.last()));
            assert(b@.subrange(pos + 1, next as int) =~= b@.subrange(pos + 1, i as int) + b@.subrange(
                i as int,
                next as int,
            ));
            if canon {
                let a = expected[k];
                let rest1 = b@.subrange(next as int, b.len() as int);
                let e = escape_byte(a);
                let rest2 = b@.subrange(i + e.len(), b.len() as int);
                assert(b@.subrange(i as int, b.len() as int) =~= escape_byte(out@.last()) + rest1);
                assert(b@.subrange(i as int, b.len() as int) =~= e + rest2);
                lemma_unescape_unit(out@.last(), rest1);
                lemma_unescape_unit(a, rest2);
                assert(out@.last() == a);
                assert(expected.subrange(0, k + 1) =~= expected.subrange(0, k).push(a));
                assert(expected.subrange(0, k + 1).drop_last() =~= expected.subrange(0, k));
                assert(out@ =~= expected.subrange(0, k + 1));
                k = k + 1;
            }
        }
        i = next;
    }
    proof {
        if canon {
            lemma_unit_at(b@, pos as int, expected, k);
            assert(k == expected.len());
            assert(expected.subrange(0, k) =~= expected);
            encode_utf8_valid_utf8(target.0);
        }
    }
    if i >= b.len() {
        return None;
    }
    let ghost raw_bytes = out@;
    match string_from_utf8(out) {
        None => None,
        Some(s) => {
            proof {
                decode_utf8_encode_utf8(raw_bytes);
                assert(b@.subrange(pos as int, i + 1) =~= seq![34u8] + b@.subrange(pos + 1, i as int)
                    + seq![34u8]);
                assert forall|t: Seq<char>, x: Seq<u8>|
                    b@.subrange(pos as int, b.len() as int) == #[trigger] (text_bytes(t) + x) implies s@ == t
                    && i + 1 == pos + text_bytes(t).len() by {
                    assert(b@.subrange(pos as int, b.len() as int) =~= text_bytes(s@) + b@.subrange(
                        i + 1,
                        b.len() as int,
                    ));
                    lemma_text_unique(s@, t, b@.subrange(i + 1, b.len() as int), x);
                }
            }
            Some((s, i + 1))
        },
    }
}

/// A canonical value, within range, whose bytes start `w`, followed by `x`.
pub open spec fn value_at(w: Seq<u8>, v: ValueView, x: Seq<u8>) -> bool {
    &&& value_in_range(v)
    &&& (v is Int ==> ends_value(x))
    &&& w == value_bytes(v) + x
}

proof fn lemma_parsed_value(b: Seq<u8>, pos: int, end: int, w: ValueView, v: ValueView, x: Seq<u8>)
    requires
        0 <= pos < end <= b.len(),
        b.subrange(pos, end) == value_bytes(w),
        w is Int ==> ends_value(b.subrange(end, b.len() as int)),
        value_at(b.subrange(pos, b.len() as int), v, x),
    ensures
        w == v,
        end == pos + value_bytes(v).len(),
{
    assert(b.subrange(pos, b.len() as int) =~= value_bytes(w) + b.subrange(end, b.len() as int));
    lemma_value_unique(w, v, b.subrange(end, b.len() as int), x);
}

/// Reads one value in canonical form starting at `pos`; on success returns it
/// with the position just past its bytes. Where the bytes from `pos` on start
/// with the canonical bytes of a value (followed, after an integer, by no
/// further digit), that value is what it reads.
pub fn parse_value_at(b: &Vec<u8>, pos: usize) -> (r: Option<(Value, usize)>)
    requires
        pos <= b.len(),
    ensures
        r matches Some((v, end)) ==> pos < end <= b.len() && b@.subrange(pos as int, end as int)
            == value_bytes(v@),
        r matches Some((v, end)) ==> (v is Int ==> ends_value(b@.subrange(end as int, b.len() as int))),
        forall|v: ValueView, x: Seq<u8>|
            #[trigger] value_at(b@.subrange(pos as int, b.len() as int), v, x) ==> (r matches Some((w, end))
                && w@ == v && end == pos + value_bytes(v).len()),
    decreases b.len() - pos, 1int,
{
    let ghost w = b@.subrange(pos as int, b.len() as int);
    let ghost canon = exists|v: ValueView, x: Seq<u8>| #[trigger] value_at(w, v, x);
    let ghost target = choose|v: ValueView, x: Seq<u8>| #[trigger] value_at(w, v, x);
    proof {
        assert forall|v: ValueView, x: Seq<u8>| #[trigger] value_at(w, v, x) implies canon by {}
        if canon {
            let vb = value_bytes(target.0);
            lemma_value_first_byte(target.0, target.1);
            assert(vb.len() <= w.len());
            assert(b@.subrange(pos as int, pos + vb.len()) =~= vb);
            assert(b@[pos as int] == vb[0]);
        }
    }
    if pos >= b.len() {
        proof {
            if canon {
                lemma_value_first_byte(target.0, target.1);
            }
        }
        return None;
    }
    let c = b[pos];
    let r = if c == 110 {
        let lit: [u8; 4] = [110, 117, 108, 108];
        assert(lit@ =~= value_bytes(ValueView::Null));
        if parse_literal(b, pos, lit.as_slice()) {
            Some((Value::Null, pos + 4))
        } else {
            None
        }
    } else if c == 116 {
        let lit: [u8; 4] = [116, 114, 117, 101];
        assert(lit@ =~= value_bytes(ValueView::Bool(true)));
        if parse_literal(b, pos, lit.as_slice()) {
            Some((Value::Bool(true), pos + 4))
        } else {
            None
        }
    } else if c == 102 {
        let lit: [u8; 5] = [102, 97, 108, 115, 101];
        assert(lit@ =~= value_bytes(ValueView::Bool(false)));
        if parse_literal(b, pos, lit.as_slice()) {
            Some((Value::Bool(false), pos + 5))
        } else {
            None
        }
    } else if c == 91 {
        proof {
            if canon {
                if let ValueView::List(vs) = target.0 {
                    assert(w =~= seq![91u8] + items_bytes(vs) + seq![93u8] + target.1);
                    assert(values_in_range(vs));
                }
            }
        }
        match parse_items(b, pos) {
            Some((vs, end)) => {
                proof {
                    lemma_list_view(vs);
                }
                Some((Value::List(vs), end))
            },
            None => None,
        }
    } else if c == 123 {
        proof {
            if canon {
                if let ValueView::Record(es) = target.0 {
                    assert(w =~= seq![123u8] + entries_bytes(es) + seq![125u8] + target.1);
                    assert(entries_in_range(es));
                }
            }
        }
        match parse_entries(b, pos) {
            Some((es, end)) => {
                proof {
                    lemma_record_view(es);
                }
                Some((Value::Record(es), end))
            },
            None => None,
        }
    } else if c == 34 {
        proof {
            if canon {
                if let ValueView::Text(t) = target.0 {
                    assert(w == text_bytes(t) + target.1);
                }
            }
        }
        match parse_text_at(b, pos) {
            Some((s, end)) => Some((Value::Text(s), end)),
            None => None,
        }
    } else {
        proof {
            if canon {
                if let ValueView::Int(n) = target.0 {
                    assert(w == int_bytes(n) + target.1);
                }
            }
        }
        match parse_int_at(b, pos) {
            Some((n, end)) => Some((Value::Int(n), end)),
            None => None,
        }
    };
    proof {
        if canon {
            if r is Some {
                let (v, end) = r->0;
                lemma_parsed_value(b@, pos as int, end as int, v@, target.0, target.1);
            }
        }
        assert forall|v: ValueView, x: Seq<u8>| #[trigger] value_at(w, v, x) implies v == target.0 by {
            lemma_value_unique(v, target.0, x, target.1);
        }
    }
    r
}

/// Decodes the canonical bytes of one value of the expected kind: a value
/// whose canonical bytes they are, if it is of that kind; a type mismatch if
/// it is of another; and malformed bytes where there is no such value.
pub fn decode_value(b: &Vec<u8>, expected: Kind) -> (r: Result<Value, DecodeError>)
    ensures
        r matches Ok(v) ==> value_bytes(v@) == b@ && kind_of(v@) == expected,
        forall|v: ValueView|
            value_in_range(v) && #[trigger] value_bytes(v) == b@ ==> (if kind_of(v) == expected {
                r matches Ok(w) && w@ == v
            } else {
                r == Err::<Value, DecodeError>(DecodeError::TypeMismatch)
            }),
        r == Err::<Value, DecodeError>(DecodeError::Malformed) <==> !exists|v: ValueView|
            value_in_range(v) && #[trigger] value_bytes(v) == b@,
{
    proof {
        assert(b@.subrange(0, b.len() as int) =~= b@);
        assert forall|v: ValueView| value_in_range(v) && #[trigger] value_bytes(v) == b@ implies value_at(
            b@.subrange(0, b.len() as int),
            v,
            Seq::empty(),
        ) by {
            assert(value_bytes(v) + Seq::<u8>::empty() =~= value_bytes(v));
        }
    }
    match parse_value_at(b, 0) {
        Some((v, end)) => {
            if end != b.len() {
                return Err(DecodeError::Malformed);
            }
            assert(b@.subrange(0, end as int) =~= b@);
            proof {
                lemma_view_in_range(v);
            }
            check_kind(v, expected)
        },
        None => Err(DecodeError::Malformed),
    }
}

// ---------------------------------------------------------------------------
// Unique decoding
/// The bytes that may follow a value: none, or one that is not a digit.
pub open spec fn ends_value(x: Seq<u8>) -> bool {
    x.len() == 0 || !(48 <= x[0] <= 57)
}

proof fn lemma_escape_concat(p: Seq<u8>, q: Seq<u8>)
    ensures
        escape(p + q) == escape(p) + escape(q),
    decreases q.len(),
{
    if q.len() == 0 {
        assert(p + q =~= p);
        assert(escape(p) + escape(q) =~= escape(p));
    } else {
        lemma_escape_concat(p, q.drop_last());
        assert((p + q).drop_last() =~= p + q.drop_last());
        assert((p + q).last() == q.last());
        assert(escape(p + q) =~= escape(p) + escape(q));
    }
}

spec fn hex_value(c: u8) -> u8 {
    if c <= 57 {
        (c - 48) as u8
    } else {
        (c - 87) as u8
    }
}

/// The byte that the escape unit at the front stands for, and the unit's length.
spec fn unescape_unit(b: Seq<u8>) -> (u8, int) {
    if b[0] != 92 {
        (b[0], 1)
    } else if b.len() < 2 {
        (0, 1)
    } else if b[1] == 34 {
        (34, 2)
    } else if b[1] == 92 {
        (92, 2)
    } else if b[1] == 110 {
        (10, 2)
    } else if b[1] == 114 {
        (13, 2)
    } else if b[1] == 116 {
        (9, 2)
    } else if b[1] == 98 {
        (8, 2)
    } else if b[1] == 102 {
        (12, 2)
    } else if b.len() >= 6 {
        ((hex_value(b[4]) * 16 + hex_value(b[5])) as u8, 6)
    } else {
        (0, 1)
    }
}

/// The raw bytes of a string body up to its closing quote, and the body's length.
spec fn text_body(b: Seq<u8>) -> Option<(Seq<u8>, int)>
    decreases b.len(),
{
    if b.len() == 0 {
        None
    } else if b[0] == 34 {
        Some((Seq::empty(), 0))
    } else {
        let n = unescape_unit(b).1;
        if 0 < n <= b.len() {
            match text_body(b.subrange(n, b.len() as int)) {
                None => None,
                Some((r, m)) => Some((seq![unescape_unit(b).0] + r, n + m)),
            }
        } else {
            None
        }
    }
}

proof fn lemma_unescape_unit(a: u8, rest: Seq<u8>)
    ensures
        unescape_unit(escape_byte(a) + rest) == (a, escape_byte(a).len() as int),
        (escape_byte(a) + rest)[0] != 34,
        escape_byte(a).len() > 0,
{
    let b = escape_byte(a) + rest;
    if a < 32 && a != 10 && a != 13 && a != 9 && a != 8 && a != 12 {
        let hi = a / 16;
        let lo = a % 16;
        assert(hex_value(hex_digit(hi)) == hi);
        assert(hex_value(hex_digit(lo)) == lo);
        assert(b[4] == hex_digit(hi) && b[5] == hex_digit(lo));
        assert(hi * 16 + lo == a);
    }
}

proof fn lemma_text_body(raw: Seq<u8>, x: Seq<u8>)
    ensures
        text_body(escape(raw) + seq![34u8] + x) == Some((raw, escape(raw).len() as int)),
    decreases raw.len(),
{
    if raw.len() == 0 {
        assert(escape(raw) =~= Seq::<u8>::empty());
        assert((escape(raw) + seq![34u8] + x)[0] == 34);
    } else {
        let a = raw[0];
        let tail = raw.drop_first();
        assert(raw =~= seq![a] + tail);
        lemma_escape_concat(seq![a], tail);
        assert(seq![a].drop_last() =~= Seq::<u8>::empty());
        assert(seq![a].last() == a);
        assert(escape(seq![a]) == escape(seq![a].drop_last()) + escape_byte(seq![a].last()));
        assert(escape(Seq::<u8>::empty()) =~= Seq::<u8>::empty());
        assert(escape(seq![a]) =~= escape_byte(a));
        let rest = escape(tail) + seq![34u8] + x;
        let b = escape(raw) + seq![34u8] + x;
        assert(b =~= escape_byte(a) + rest);
        lemma_unescape_unit(a, rest);
        let n = escape_byte(a).len() as int;
        assert(b.subrange(n, b.len() as int) =~= rest);
        lemma_text_body(tail, x);
        assert(seq![a] + tail =~= raw);
    }
}

/// Two strings whose canonical bytes start two equal byte strings are equal,
/// and so are the bytes after them.
pub proof fn lemma_text_unique(s: Seq<char>, t: Seq<char>, x: Seq<u8>, y: Seq<u8>)
    requires
        text_bytes(s) + x == text_bytes(t) + y,
    ensures
        s == t,
        x == y,
{
    let a = encode_utf8(s);
    let b = encode_utf8(t);
    let whole = text_bytes(s) + x;
    let body = whole.drop_first();
    assert(body =~= escape(a) + seq![34u8] + x);
    assert(body =~= escape(b) + seq![34u8] + y);
    lemma_text_body(a, x);
    lemma_text_body(b, y);
    assert(a == b);
    encode_utf8_decode_utf8(s);
    encode_utf8_decode_utf8(t);
    let n = escape(a).len() as int;
    assert(x =~= body.subrange(n + 1, body.len() as int));
    assert(y =~= body.subrange(n + 1, body.len() as int));
}

proof fn lemma_decimal_digits(n: nat)
    ensures
        decimal(n).len() > 0,
        forall|i: int| 0 <= i < decimal(n).len() ==> 48 <= #[trigger] decimal(n)[i] <= 57,
        digits_value(decimal(n)) == n,
    decreases n,
{
    let d = decimal(n);
    if n >= 10 {
        lemma_decimal_digits(n / 10);
        assert(d.drop_last() =~= decimal(n / 10));
        assert(d.last() == (48 + n % 10) as u8);
        assert((n / 10) * 10 + n % 10 == n) by (nonlinear_arith);
    } else {
        assert(d.drop_last() =~= Seq::<u8>::empty());
        assert(digits_value(d.drop_last()) == 0);
    }
}

/// How many digits a byte string starts with.
spec fn digit_run(s: Seq<u8>) -> nat
    decreases s.len(),
{
    if s.len() > 0 && 48 <= s[0] <= 57 {
        1 + digit_run(s.drop_first())
    } else {
        0
    }
}

proof fn lemma_digit_run(d: Seq<u8>, x: Seq<u8>)
    requires
        forall|i: int| 0 <= i < d.len() ==> 48 <= #[trigger] d[i] <= 57,
        ends_value(x),
    ensures
        digit_run(d + x) == d.len(),
    decreases d.len(),
{
    if d.len() == 0 {
        assert(d + x =~= x);
    } else {
        let t = d.drop_first();
        assert((d + x).drop_first() =~= t + x);
        assert forall|i: int| 0 <= i < t.len() implies 48 <= #[trigger] t[i] <= 57 by {
            assert(t[i] == d[i + 1]);
        }
        lemma_digit_run(t, x);
    }
}

proof fn lemma_decimal_unique(n: nat, m: nat, x: Seq<u8>, y: Seq<u8>)
    requires
        decimal(n) + x == decimal(m) + y,
        ends_value(x),
        ends_value(y),
    ensures
        n == m,
        x == y,
{
    lemma_decimal_digits(n);
    lemma_decimal_digits(m);
    lemma_digit_run(decimal(n), x);
    lemma_digit_run(decimal(m), y);
    let w = decimal(n) + x;
    let k = decimal(n).len() as int;
    assert(decimal(n) =~= w.subrange(0, k));
    assert(decimal(m) =~= w.subrange(0, k));
    assert(x =~= w.subrange(k, w.len() as int));
    assert(y =~= w.subrange(k, w.len() as int));
}

proof fn lemma_int_unique(n: int, m: int, x: Seq<u8>, y: Seq<u8>)
    requires
        int_bytes(n) + x == int_bytes(m) + y,
        ends_value(x),
        ends_value(y),
    ensures
        n == m,
        x == y,
{
    lemma_decimal_digits((-n) as nat);
    lemma_decimal_digits(n as nat);
    lemma_decimal_digits((-m) as nat);
    lemma_decimal_digits(m as nat);
    let w = int_bytes(n) + x;
    if n < 0 && m < 0 {
        assert(w.drop_first() =~= decimal((-n) as nat) + x);
        assert(w.drop_first() =~= decimal((-m) as nat) + y);
        lemma_decimal_unique((-n) as nat, (-m) as nat, x, y);
    } else if n >= 0 && m >= 0 {
        lemma_decimal_unique(n as nat, m as nat, x, y);
    } else if n < 0 {
        assert(w[0] == 45);
        assert(w[0] == decimal(m as nat)[0]);
    } else {
        assert(w[0] == decimal(n as nat)[0]);
        assert((int_bytes(m) + y)[0] == 45);
    }
}

/// The first byte of a value's canonical bytes: a letter, a quote, a minus
/// sign or a digit.
pub proof fn lemma_value_first_byte(v: ValueView, x: Seq<u8>)
    ensures
        value_bytes(v).len() > 0,
        (value_bytes(v) + x)[0] == value_bytes(v)[0],
        value_bytes(v)[0] == 110 || value_bytes(v)[0] == 116 || value_bytes(v)[0] == 102 || value_bytes(v)[0]
            == 34 || value_bytes(v)[0] == 45 || 48 <= value_bytes(v)[0] <= 57 || value_bytes(v)[0] == 91
            || value_bytes(v)[0] == 123,
        v is Null ==> value_bytes(v)[0] == 110,
        v is List ==> value_bytes(v)[0] == 91,
        v is Record ==> value_bytes(v)[0] == 123,
        v matches ValueView::Bool(b) ==> value_bytes(v)[0] == (if b { 116u8 } else { 102u8 }),
        v is Text ==> value_bytes(v)[0] == 34,
        v is Int ==> value_bytes(v)[0] == 45 || 48 <= value_bytes(v)[0] <= 57,
{
    match v {
        ValueView::Int(n) => {
            lemma_decimal_digits((-n) as nat);
            lemma_decimal_digits(n as nat);
        },
        _ => {},
    }
}

/// A value whose canonical bytes start a byte string, followed by something
/// other than a digit, is determined by it, and so are the bytes after it.
pub proof fn lemma_value_unique(v: ValueView, w: ValueView, x: Seq<u8>, y: Seq<u8>)
    requires
        value_bytes(v) + x == value_bytes(w) + y,
        v is Int ==> ends_value(x),
        w is Int ==> ends_value(y),
    ensures
        v == w,
        x == y,
    decreases v, 1int,
{
    lemma_value_first_byte(v, x);
    lemma_value_first_byte(w, y);
    let s = value_bytes(v) + x;
    match (v, w) {
        (ValueView::Int(n), ValueView::Int(m)) => {
            lemma_int_unique(n, m, x, y);
        },
        (ValueView::Text(a), ValueView::Text(b)) => {
            lemma_text_unique(a, b, x, y);
        },
        (ValueView::List(vs), ValueView::List(ws)) => {
            assert(s.drop_first() =~= items_bytes(vs) + seq![93u8] + x);
            assert((value_bytes(w) + y).drop_first() =~= items_bytes(ws) + seq![93u8] + y);
            lemma_items_unique(vs, ws, x, y);
        },
        (ValueView::Record(es), ValueView::Record(fs)) => {
            assert(s.drop_first() =~= entries_bytes(es) + seq![125u8] + x);
            assert((value_bytes(w) + y).drop_first() =~= entries_bytes(fs) + seq![125u8] + y);
            lemma_entries_unique(es, fs, x, y);
        },
        (ValueView::Null, ValueView::Null) => {
            assert(x =~= s.subrange(4, s.len() as int));
            assert(y =~= s.subrange(4, s.len() as int));
        },
        (ValueView::Bool(p), ValueView::Bool(q)) => {
            if p == q {
                let k = value_bytes(v).len() as int;
                assert(x =~= s.subrange(k, s.len() as int));
                assert(y =~= s.subrange(k, s.len() as int));
            } else {
                assert(s[0] == value_bytes(v)[0]);
            }
        },
        _ => {
            assert(s[0] == value_bytes(v)[0]);
            assert(s[0] == value_bytes(w)[0]);
        },
    }
}

// ---------------------------------------------------------------------------
// Lists and records
/// Values separated by commas.
pub open spec fn items_bytes(vs: Seq<ValueView>) -> Seq<u8>
    decreases vs, 0int,
{
    if vs.len() == 0 {
        Seq::empty()
    } else if vs.len() == 1 {
        value_bytes(vs[0])
    } else {
        items_bytes(vs.drop_last()) + seq![44u8] + value_bytes(vs.last())
    }
}

/// One `"name":value` entry.
pub open spec fn entry_bytes(e: (Seq<char>, ValueView)) -> Seq<u8>
    decreases e, 0int,
{
    text_bytes(e.0) + seq![58u8] + value_bytes(e.1)
}

/// Entries separated by commas.
pub open spec fn entries_bytes(es: Seq<(Seq<char>, ValueView)>) -> Seq<u8>
    decreases es, 0int,
{
    if es.len() == 0 {
        Seq::empty()
    } else if es.len() == 1 {
        entry_bytes(es[0])
    } else {
        entries_bytes(es.drop_last()) + seq![44u8] + entry_bytes(es.last())
    }
}



proof fn lemma_items_split(p: Seq<ValueView>, q: Seq<ValueView>)
    requires
        p.len() > 0,
        q.len() > 0,
    ensures
        items_bytes(p + q) == items_bytes(p) + seq![44u8] + items_bytes(q),
    decreases q.len(),
{
    let pq = p + q;
    assert(pq.drop_last() =~= p + q.drop_last());
    assert(pq.last() == q.last());
    if q.len() == 1 {
        assert(q.drop_last() =~= Seq::<ValueView>::empty());
        assert(pq.drop_last() =~= p);
        assert(items_bytes(q) == value_bytes(q[0]));
    } else {
        lemma_items_split(p, q.drop_last());
        assert(items_bytes(p + q) =~= items_bytes(p) + seq![44u8] + items_bytes(q));
    }
}

/// Where the `k`-th item stands in the bytes of a list, and what follows it.
proof fn lemma_items_at(vs: Seq<ValueView>, k: int)
    requires
        0 <= k < vs.len(),
    ensures
        items_bytes(vs) == items_bytes(vs.subrange(0, k)) + (if k > 0 { seq![44u8] } else { Seq::empty() })
            + value_bytes(vs[k]) + (if k + 1 < vs.len() {
            seq![44u8] + items_bytes(vs.subrange(k + 1, vs.len() as int))
        } else {
            Seq::empty()
        }),
{
    let pre = vs.subrange(0, k);
    let post = vs.subrange(k, vs.len() as int);
    assert(vs =~= pre + post);
    lemma_items_front(post);
    assert(post.drop_first() =~= vs.subrange(k + 1, vs.len() as int));
    if k > 0 {
        lemma_items_split(pre, post);
    } else {
        assert(pre =~= Seq::<ValueView>::empty());
        assert(pre + post =~= post);
        assert(items_bytes(pre) =~= Seq::<u8>::empty());
    }
    assert(items_bytes(vs) =~= items_bytes(pre) + (if k > 0 { seq![44u8] } else { Seq::empty() })
        + value_bytes(vs[k]) + (if k + 1 < vs.len() {
        seq![44u8] + items_bytes(vs.subrange(k + 1, vs.len() as int))
    } else {
        Seq::empty()
    }));
}

/// What follows the `k`-th item of a list in its canonical bytes.
spec fn items_after(vs: Seq<ValueView>, k: int, x: Seq<u8>) -> Seq<u8> {
    (if k + 1 < vs.len() {
        seq![44u8] + items_bytes(vs.subrange(k + 1, vs.len() as int))
    } else {
        Seq::empty()
    }) + seq![93u8] + x
}

/// Where the list's items stand in bytes that hold it.
proof fn lemma_items_position(b: Seq<u8>, pos: int, i: int, vs: Seq<ValueView>, x: Seq<u8>, k: int)
    requires
        0 <= pos <= b.len(),
        b.subrange(pos, b.len() as int) == seq![91u8] + items_bytes(vs) + seq![93u8] + x,
        values_in_range(vs),
        0 <= k < vs.len(),
        i == pos + 1 + items_bytes(vs.subrange(0, k)).len() + (if k > 0 { 1int } else { 0int }),
    ensures
        pos < i <= b.len(),
        value_at(b.subrange(i, b.len() as int), vs[k], items_after(vs, k, x)),
        i + value_bytes(vs[k]).len() < b.len(),
        b.subrange(i + value_bytes(vs[k]).len(), b.len() as int) == items_after(vs, k, x),
        b[i + value_bytes(vs[k]).len()] == (if k + 1 < vs.len() { 44u8 } else { 93u8 }),
{
    lemma_items_at(vs, k);
    let after = items_after(vs, k, x);
    let w = b.subrange(pos, b.len() as int);
    let head = seq![91u8] + items_bytes(vs.subrange(0, k)) + (if k > 0 { seq![44u8] } else { Seq::empty() });
    assert(w =~= head + (value_bytes(vs[k]) + after));
    assert(head.len() == i - pos);
    assert(w.subrange(i - pos, w.len() as int) =~= value_bytes(vs[k]) + after);
    assert(b.subrange(i, b.len() as int) =~= w.subrange(i - pos, w.len() as int));
    assert(b.subrange(i, b.len() as int) == value_bytes(vs[k]) + after);
    assert(after[0] == 44 || after[0] == 93);
    assert(value_in_range(vs[k]));
    let n = value_bytes(vs[k]).len() as int;
    let v = b.subrange(i, b.len() as int);
    assert(v.subrange(n, v.len() as int) =~= after);
    assert(b.subrange(i + n, b.len() as int) =~= v.subrange(n, v.len() as int));
    assert(b[i + n] == after[0]);
}

pub(crate) fn parse_items(b: &Vec<u8>, pos: usize) -> (r: Option<(Vec<Value>, usize)>)
    requires
        pos <= b.len(),
    ensures
        r matches Some((vs, end)) ==> pos < end <= b.len() && b@.subrange(pos as int, end as int)
            == seq![91u8] + items_bytes(values_view(vs@)) + seq![93u8],
        forall|vs: Seq<ValueView>, x: Seq<u8>|
            values_in_range(vs) && b@.subrange(pos as int, b.len() as int) == #[trigger] (seq![91u8]
                + items_bytes(vs) + seq![93u8] + x) ==> (r matches Some((ws, end)) && values_view(ws@) == vs
                && end == pos + items_bytes(vs).len() + 2),
    decreases b.len() - pos, 0int,
{
    let ghost canon = exists|vs: Seq<ValueView>, x: Seq<u8>|
        values_in_range(vs) && b@.subrange(pos as int, b.len() as int) == #[trigger] (seq![91u8]
            + items_bytes(vs) + seq![93u8] + x);
    let ghost target = choose|vs: Seq<ValueView>, x: Seq<u8>|
        values_in_range(vs) && b@.subrange(pos as int, b.len() as int) == #[trigger] (seq![91u8]
            + items_bytes(vs) + seq![93u8] + x);
    let ghost tv = target.0;
    let ghost tx = target.1;
    proof {
        assert forall|vs: Seq<ValueView>, x: Seq<u8>|
            values_in_range(vs) && b@.subrange(pos as int, b.len() as int) == #[trigger] (seq![91u8]
                + items_bytes(vs) + seq![93u8] + x) implies canon && vs == tv && x == tx by {
            let w = b@.subrange(pos as int, b.len() as int);
            assert(w.drop_first() =~= items_bytes(vs) + seq![93u8] + x);
            assert(w.drop_first() =~= items_bytes(tv) + seq![93u8] + tx);
            lemma_items_unique(vs, tv, x, tx);
        }
        if canon {
            let w = b@.subrange(pos as int, b.len() as int);
            assert(w.len() == b.len() - pos);
            assert(b@[pos as int] == w[0]);
            if tv.len() == 0 {
                assert(b@[pos + 1] == w[1]);
            } else {
                lemma_items_front(tv);
                lemma_value_first_byte(tv[0], Seq::empty());
                assert(b@[pos + 1] == w[1]);
                assert(w[1] == value_bytes(tv[0])[0]);
            }
        }
    }
    if pos >= b.len() || b[pos] != 91 {
        return None;
    }
    let mut vs: Vec<Value> = Vec::new();
    if pos + 1 < b.len() && b[pos + 1] == 93 {
        assert(b@.subrange(pos as int, pos + 2) =~= seq![91u8] + items_bytes(values_view(vs@))
            + seq![93u8]);
        proof {
            if canon {
                assert(tv.len() == 0);
                assert(values_view(vs@) =~= tv);
            }
        }
        return Some((vs, pos + 2));
    }
    let mut i: usize = pos + 1;
    let ghost mut k: int = 0;
    proof {
        if canon {
            assert(tv.len() > 0);
            assert(tv.subrange(0, 0) =~= Seq::<ValueView>::empty());
            assert(values_view(vs@) =~= tv.subrange(0, 0));
        }
    }
    loop
        invariant
            pos < i <= b.len(),
            b@.subrange(pos as int, i as int) == seq![91u8] + items_bytes(values_view(vs@)) + (if vs@.len()
                > 0 {
                seq![44u8]
            } else {
                Seq::empty()
            }),
            canon ==> values_in_range(tv) && b@.subrange(pos as int, b.len() as int) == seq![91u8]
                + items_bytes(tv) + seq![93u8] + tx,
            canon ==> 0 <= k < tv.len() && values_view(vs@) == tv.subrange(0, k) && vs@.len() == k,
            canon ==> i == pos + 1 + items_bytes(tv.subrange(0, k)).len() + (if k > 0 { 1int } else { 0int }),
            forall|vs2: Seq<ValueView>, x: Seq<u8>|
                values_in_range(vs2) && b@.subrange(pos as int, b.len() as int) == #[trigger] (seq![91u8]
                    + items_bytes(vs2) + seq![93u8] + x) ==> canon && vs2 == tv && x == tx,
        decreases b.len() - i,
    {
        let ghost prev = vs@;
        proof {
            if canon {
                lemma_items_position(b@, pos as int, i as int, tv, tx, k);
            }
        }
        match parse_value_at(b, i) {
            None => {
                return None;
            },
            Some((v, end)) => {
                let ghost vv = v@;
                vs.push(v);
                proof {
                    assert(vs@ =~= prev.push(vs@.last()));
                    assert(values_view(vs@) =~= values_view(prev).push(vv));
                    assert(values_view(vs@).drop_last() =~= values_view(prev));
                    assert(b@.subrange(pos as int, end as int) =~= b@.subrange(pos as int, i as int)
                        + b@.subrange(i as int, end as int));
                    assert(b@.subrange(pos as int, end as int) =~= seq![91u8] + items_bytes(
                        values_view(vs@),
                    ));
                    if canon {
                        assert(tv.subrange(0, k + 1) =~= tv.subrange(0, k).push(tv[k]));
                        assert(values_view(vs@) =~= tv.subrange(0, k + 1));
                        if k + 1 == tv.len() {
                            assert(tv.subrange(0, k + 1) =~= tv);
                        }
                    }
                }
                if end >= b.len() {
                    return None;
                }
                if b[end] == 93 {
                    assert(b@.subrange(pos as int, end + 1) =~= b@.subrange(pos as int, end as int)
                        + seq![93u8]);
                    return Some((vs, end + 1));
                }
                if b[end] != 44 {
                    return None;
                }
                assert(b@.subrange(pos as int, end + 1) =~= b@.subrange(pos as int, end as int)
                    + seq![44u8]);
                i = end + 1;
                proof {
                    if canon {
                        k = k + 1;
                        assert(values_view(vs@) == tv.subrange(0, k));
                    }
                }
            },
        }
    }
}



proof fn lemma_entries_split(p: Seq<(Seq<char>, ValueView)>, q: Seq<(Seq<char>, ValueView)>)
    requires
        p.len() > 0,
        q.len() > 0,
    ensures
        entries_bytes(p + q) == entries_bytes(p) + seq![44u8] + entries_bytes(q),
    decreases q.len(),
{
    let pq = p + q;
    assert(pq.drop_last() =~= p + q.drop_last());
    assert(pq.last() == q.last());
    if q.len() == 1 {
        assert(pq.drop_last() =~= p);
        assert(entries_bytes(q) == entry_bytes(q[0]));
    } else {
        lemma_entries_split(p, q.drop_last());
        assert(entries_bytes(p + q) =~= entries_bytes(p) + seq![44u8] + entries_bytes(q));
    }
}

/// What follows the value of the `k`-th entry in the canonical bytes of entries.
spec fn entries_after(es: Seq<(Seq<char>, ValueView)>, k: int, x: Seq<u8>) -> Seq<u8> {
    (if k + 1 < es.len() {
        seq![44u8] + entries_bytes(es.subrange(k + 1, es.len() as int))
    } else {
        Seq::empty()
    }) + seq![125u8] + x
}

proof fn lemma_entry_bytes(e: (Seq<char>, ValueView))
    ensures
        entry_bytes(e) == text_bytes(e.0) + seq![58u8] + value_bytes(e.1),
{
}

/// Where the entries stand in bytes that hold them.
proof fn lemma_entries_position(
    b: Seq<u8>,
    pos: int,
    i: int,
    es: Seq<(Seq<char>, ValueView)>,
    x: Seq<u8>,
    k: int,
)
    requires
        0 <= pos <= b.len(),
        b.subrange(pos, b.len() as int) == seq![123u8] + entries_bytes(es) + seq![125u8] + x,
        0 <= k < es.len(),
        i == pos + 1 + entries_bytes(es.subrange(0, k)).len() + (if k > 0 { 1int } else { 0int }),
    ensures
        pos < i <= b.len(),
        b.subrange(i, b.len() as int) == entry_bytes(es[k]) + entries_after(es, k, x),
        entries_after(es, k, x)[0] == (if k + 1 < es.len() { 44u8 } else { 125u8 }),
{
    let pre = es.subrange(0, k);
    let post = es.subrange(k, es.len() as int);
    assert(es =~= pre + post);
    lemma_entries_front(post);
    assert(post.drop_first() =~= es.subrange(k + 1, es.len() as int));
    if k > 0 {
        lemma_entries_split(pre, post);
    } else {
        assert(pre + post =~= post);
        assert(entries_bytes(pre) =~= Seq::<u8>::empty());
    }
    let after = entries_after(es, k, x);
    let unit = entry_bytes(es[k]) + after;
    let w = b.subrange(pos, b.len() as int);
    let head = seq![123u8] + entries_bytes(pre) + (if k > 0 { seq![44u8] } else { Seq::empty() });
    assert(w =~= head + unit);
    assert(head.len() == i - pos);
    assert(w.subrange(i - pos, w.len() as int) =~= unit);
    assert(b.subrange(i, b.len() as int) =~= w.subrange(i - pos, w.len() as int));
}

/// The key, the colon and the value of an entry, where it stands.
proof fn lemma_entry_layout(b: Seq<u8>, i: int, e: (Seq<char>, ValueView), after: Seq<u8>)
    requires
        0 <= i <= b.len(),
        b.subrange(i, b.len() as int) == entry_bytes(e) + after,
        value_in_range(e.1),
        after.len() > 0,
        !(48 <= after[0] <= 57),
    ensures
        ({
            let kl = text_bytes(e.0).len() as int;
            let vl = value_bytes(e.1).len() as int;
            &&& b.subrange(i, b.len() as int) == text_bytes(e.0) + (seq![58u8] + value_bytes(e.1) + after)
            &&& i + kl < b.len()
            &&& b[i + kl] == 58
            &&& value_at(b.subrange(i + kl + 1, b.len() as int), e.1, after)
            &&& i + kl + 1 + vl < b.len()
            &&& b[i + kl + 1 + vl] == after[0]
        }),
{
    lemma_entry_bytes(e);
    let kb = text_bytes(e.0);
    let vb = value_bytes(e.1);
    let c = b.subrange(i, b.len() as int);
    assert(c =~= kb + (seq![58u8] + vb + after));
    let kl = kb.len() as int;
    let vl = vb.len() as int;
    assert(b[i + kl] == c[kl]);
    let v = b.subrange(i + kl + 1, b.len() as int);
    assert(v =~= c.subrange(kl + 1, c.len() as int));
    assert(v =~= vb + after);
    assert(b[i + kl + 1 + vl] == c[kl + 1 + vl]);
}

pub(crate) fn parse_entries(b: &Vec<u8>, pos: usize) -> (r: Option<(Vec<(String, Value)>, usize)>)
    requires
        pos <= b.len(),
    ensures
        r matches Some((es, end)) ==> pos < end <= b.len() && b@.subrange(pos as int, end as int)
            == seq![123u8] + entries_bytes(entries_view(es@)) + seq![125u8],
        forall|es: Seq<(Seq<char>, ValueView)>, x: Seq<u8>|
            entries_in_range(es) && b@.subrange(pos as int, b.len() as int) == #[trigger] (seq![123u8]
                + entries_bytes(es) + seq![125u8] + x) ==> (r matches Some((fs, end)) && entries_view(fs@)
                == es && end == pos + entries_bytes(es).len() + 2),
    decreases b.len() - pos, 0int,
{
    let ghost canon = exists|es: Seq<(Seq<char>, ValueView)>, x: Seq<u8>|
        entries_in_range(es) && b@.subrange(pos as int, b.len() as int) == #[trigger] (seq![123u8]
            + entries_bytes(es) + seq![125u8] + x);
    let ghost target = choose|es: Seq<(Seq<char>, ValueView)>, x: Seq<u8>|
        entries_in_range(es) && b@.subrange(pos as int, b.len() as int) == #[trigger] (seq![123u8]
            + entries_bytes(es) + seq![125u8] + x);
    let ghost te = target.0;
    let ghost tx = target.1;
    proof {
        assert forall|es: Seq<(Seq<char>, ValueView)>, x: Seq<u8>|
            entries_in_range(es) && b@.subrange(pos as int, b.len() as int) == #[trigger] (seq![123u8]
                + entries_bytes(es) + seq![125u8] + x) implies canon && es == te && x == tx by {
            let w = b@.subrange(pos as int, b.len() as int);
            assert(w.drop_first() =~= entries_bytes(es) + seq![125u8] + x);
            assert(w.drop_first() =~= entries_bytes(te) + seq![125u8] + tx);
            lemma_entries_unique(es, te, x, tx);
        }
        if canon {
            let w = b@.subrange(pos as int, b.len() as int);
            assert(w.len() == b.len() - pos);
            assert(b@[pos as int] == w[0]);
            assert(b@[pos + 1] == w[1]);
            if te.len() > 0 {
                lemma_entries_first_byte(te, seq![125u8] + tx);
                assert(w.drop_first() =~= entries_bytes(te) + (seq![125u8] + tx));
            }
        }
    }
    if pos >= b.len() || b[pos] != 123 {
        return None;
    }
    let mut es: Vec<(String, Value)> = Vec::new();
    if pos + 1 < b.len() && b[pos + 1] == 125 {
        assert(b@.subrange(pos as int, pos + 2) =~= seq![123u8] + entries_bytes(entries_view(es@))
            + seq![125u8]);
        proof {
            if canon {
                assert(te.len() == 0);
                assert(entries_view(es@) =~= te);
            }
        }
        return Some((es, pos + 2));
    }
    let mut i: usize = pos + 1;
    let ghost mut k: int = 0;
    proof {
        if canon {
            assert(te.len() > 0);
            assert(te.subrange(0, 0) =~= Seq::<(Seq<char>, ValueView)>::empty());
            assert(entries_view(es@) =~= te.subrange(0, 0));
        }
    }
    loop
        invariant
            pos < i <= b.len(),
            b@.subrange(pos as int, i as int) == seq![123u8] + entries_bytes(entries_view(es@)) + (if es@.len()
                > 0 {
                seq![44u8]
            } else {
                Seq::empty()
            }),
            canon ==> entries_in_range(te) && b@.subrange(pos as int, b.len() as int) == seq![123u8]
                + entries_bytes(te) + seq![125u8] + tx,
            canon ==> 0 <= k < te.len() && entries_view(es@) == te.subrange(0, k) && es@.len() == k,
            canon ==> i == pos + 1 + entries_bytes(te.subrange(0, k)).len() + (if k > 0 { 1int } else { 0int }),
            forall|es2: Seq<(Seq<char>, ValueView)>, x: Seq<u8>|
                entries_in_range(es2) && b@.subrange(pos as int, b.len() as int) == #[trigger] (seq![123u8]
                    + entries_bytes(es2) + seq![125u8] + x) ==> canon && es2 == te && x == tx,
        decreases b.len() - i,
    {
        let ghost prev = es@;
        proof {
            if canon {
                lemma_entries_position(b@, pos as int, i as int, te, tx, k);
                lemma_entry_layout(b@, i as int, te[k], entries_after(te, k, tx));
            }
        }
        if i >= b.len() {
            return None;
        }
        let (key, kend) = match parse_text_at(b, i) {
            None => {
                return None;
            },
            Some(x) => x,
        };
        if kend >= b.len() || b[kend] != 58 {
            return None;
        }
        match parse_value_at(b, kend + 1) {
            None => {
                return None;
            },
            Some((v, end)) => {
                let ghost ev = (key@, v@);
                es.push((key, v));
                proof {
                    lemma_entry_bytes(ev);
                    assert(entries_view(es@) =~= entries_view(prev).push(ev));
                    assert(entries_view(es@).drop_last() =~= entries_view(prev));
                    assert(b@.subrange(i as int, end as int) =~= b@.subrange(i as int, kend as int)
                        + seq![58u8] + b@.subrange(kend + 1, end as int));
                    assert(b@.subrange(pos as int, end as int) =~= b@.subrange(pos as int, i as int)
                        + b@.subrange(i as int, end as int));
                    assert(b@.subrange(pos as int, end as int) =~= seq![123u8] + entries_bytes(
                        entries_view(es@),
                    ));
                    if canon {
                        assert(te.subrange(0, k + 1) =~= te.subrange(0, k).push(te[k]));
                        assert(entries_view(es@) =~= te.subrange(0, k + 1));
                        if k + 1 == te.len() {
                            assert(te.subrange(0, k + 1) =~= te);
                        }
                    }
                }
                if end >= b.len() {
                    return None;
                }
                if b[end] == 125 {
                    assert(b@.subrange(pos as int, end + 1) =~= b@.subrange(pos as int, end as int)
                        + seq![125u8]);
                    return Some((es, end + 1));
                }
                if b[end] != 44 {
                    return None;
                }
                assert(b@.subrange(pos as int, end + 1) =~= b@.subrange(pos as int, end as int)
                    + seq![44u8]);
                i = end + 1;
                proof {
                    if canon {
                        k = k + 1;
                        assert(entries_view(es@) == te.subrange(0, k));
                    }
                }
            },
        }
    }
}

proof fn lemma_items_front(vs: Seq<ValueView>)
    requires
        vs.len() > 0,
    ensures
        items_bytes(vs) == value_bytes(vs[0]) + (if vs.len() > 1 {
            seq![44u8] + items_bytes(vs.drop_first())
        } else {
            Seq::empty()
        }),
    decreases vs.len(),
{
    if vs.len() == 1 {
        assert(items_bytes(vs) =~= value_bytes(vs[0]) + Seq::<u8>::empty());
    } else {
        let d = vs.drop_last();
        let t = vs.drop_first();
        assert(d[0] == vs[0]);
        assert(t.drop_last() =~= d.drop_first());
        assert(t.last() == vs.last());
        if vs.len() == 2 {
            assert(d.len() == 1);
            assert(items_bytes(d) == value_bytes(vs[0]));
            assert(t.len() == 1);
            assert(items_bytes(t) == value_bytes(t[0]));
            assert(items_bytes(vs) =~= value_bytes(vs[0]) + (seq![44u8] + items_bytes(t)));
        } else {
            lemma_items_front(d);
            assert(items_bytes(vs) =~= value_bytes(vs[0]) + (seq![44u8] + items_bytes(t)));
        }
    }
}

proof fn lemma_entries_front(es: Seq<(Seq<char>, ValueView)>)
    requires
        es.len() > 0,
    ensures
        entries_bytes(es) == entry_bytes(es[0]) + (if es.len() > 1 {
            seq![44u8] + entries_bytes(es.drop_first())
        } else {
            Seq::empty()
        }),
    decreases es.len(),
{
    if es.len() == 1 {
        assert(entries_bytes(es) =~= entry_bytes(es[0]) + Seq::<u8>::empty());
    } else {
        let d = es.drop_last();
        let t = es.drop_first();
        assert(d[0] == es[0]);
        assert(t.drop_last() =~= d.drop_first());
        assert(t.last() == es.last());
        if es.len() == 2 {
            assert(entries_bytes(d) == entry_bytes(es[0]));
            assert(entries_bytes(t) == entry_bytes(t[0]));
            assert(entries_bytes(es) =~= entry_bytes(es[0]) + (seq![44u8] + entries_bytes(t)));
        } else {
            lemma_entries_front(d);
            assert(entries_bytes(es) =~= entry_bytes(es[0]) + (seq![44u8] + entries_bytes(t)));
        }
    }
}

pub(crate) proof fn lemma_items_unique(vs: Seq<ValueView>, ws: Seq<ValueView>, x: Seq<u8>, y: Seq<u8>)
    requires
        items_bytes(vs) + seq![93u8] + x == items_bytes(ws) + seq![93u8] + y,
    ensures
        vs == ws,
        x == y,
    decreases vs, 0int,
{
    let s = items_bytes(vs) + seq![93u8] + x;
    if vs.len() == 0 && ws.len() == 0 {
        assert(x =~= s.drop_first());
        assert(y =~= s.drop_first());
        assert(vs =~= ws);
    } else if vs.len() == 0 {
        lemma_items_front(ws);
        lemma_value_first_byte(ws[0], Seq::empty());
        assert(s[0] == 93);
        assert(s[0] == value_bytes(ws[0])[0]);
    } else if ws.len() == 0 {
        lemma_items_front(vs);
        lemma_value_first_byte(vs[0], Seq::empty());
        assert(s[0] == 93);
        assert(s[0] == value_bytes(vs[0])[0]);
    } else {
        lemma_items_front(vs);
        lemma_items_front(ws);
        let vt = vs.drop_first();
        let wt = ws.drop_first();
        let xa = (if vs.len() > 1 { seq![44u8] + items_bytes(vt) } else { Seq::<u8>::empty() }) + seq![93u8] + x;
        let ya = (if ws.len() > 1 { seq![44u8] + items_bytes(wt) } else { Seq::<u8>::empty() }) + seq![93u8] + y;
        assert(s =~= value_bytes(vs[0]) + xa);
        assert(s =~= value_bytes(ws[0]) + ya);
        assert(xa[0] == 44 || xa[0] == 93);
        assert(ya[0] == 44 || ya[0] == 93);
        lemma_value_unique(vs[0], ws[0], xa, ya);
        if vs.len() > 1 && ws.len() > 1 {
            assert(xa.drop_first() =~= items_bytes(vt) + seq![93u8] + x);
            assert(ya.drop_first() =~= items_bytes(wt) + seq![93u8] + y);
            lemma_items_unique(vt, wt, x, y);
            assert(vs =~= seq![vs[0]] + vt);
            assert(ws =~= seq![ws[0]] + wt);
        } else if vs.len() > 1 {
            assert(xa[0] == 44 && ya[0] == 93);
        } else if ws.len() > 1 {
            assert(xa[0] == 93 && ya[0] == 44);
        } else {
            assert(x =~= xa.drop_first());
            assert(y =~= ya.drop_first());
            assert(vs =~= ws);
        }
    }
}

proof fn lemma_entry_unique(e: (Seq<char>, ValueView), f: (Seq<char>, ValueView), x: Seq<u8>, y: Seq<u8>)
    requires
        entry_bytes(e) + x == entry_bytes(f) + y,
        ends_value(x),
        ends_value(y),
    ensures
        e == f,
        x == y,
    decreases e, 0int,
{
        let xa = seq![58u8] + value_bytes(e.1) + x;
    let ya = seq![58u8] + value_bytes(f.1) + y;
    assert(entry_bytes(e) + x =~= text_bytes(e.0) + xa);
    assert(entry_bytes(f) + y =~= text_bytes(f.0) + ya);
    lemma_text_unique(e.0, f.0, xa, ya);
    assert(xa.drop_first() =~= value_bytes(e.1) + x);
    assert(ya.drop_first() =~= value_bytes(f.1) + y);
    lemma_value_unique(e.1, f.1, x, y);
}

proof fn lemma_entry_first_byte(e: (Seq<char>, ValueView), x: Seq<u8>)
    ensures
        entry_bytes(e).len() > 0,
        (entry_bytes(e) + x)[0] == 34,
{
        assert(entry_bytes(e)[0] == text_bytes(e.0)[0]);
}

proof fn lemma_entries_first_byte(es: Seq<(Seq<char>, ValueView)>, x: Seq<u8>)
    requires
        es.len() > 0,
    ensures
        (entries_bytes(es) + x)[0] == 34,
{
    lemma_entries_front(es);
    let rest = (if es.len() > 1 {
        seq![44u8] + entries_bytes(es.drop_first())
    } else {
        Seq::<u8>::empty()
    }) + x;
    lemma_entry_first_byte(es[0], rest);
    assert(entries_bytes(es) + x =~= entry_bytes(es[0]) + rest);
}

pub(crate) proof fn lemma_entries_unique(
    es: Seq<(Seq<char>, ValueView)>,
    fs: Seq<(Seq<char>, ValueView)>,
    x: Seq<u8>,
    y: Seq<u8>,
)
    requires
        entries_bytes(es) + seq![125u8] + x == entries_bytes(fs) + seq![125u8] + y,
    ensures
        es == fs,
        x == y,
    decreases es, 1int,
{
    let s = entries_bytes(es) + seq![125u8] + x;
    if es.len() == 0 && fs.len() == 0 {
        assert(x =~= s.drop_first());
        assert(y =~= s.drop_first());
        assert(es =~= fs);
    } else if es.len() == 0 {
        lemma_entries_first_byte(fs, seq![125u8] + y);
        assert(entries_bytes(fs) + seq![125u8] + y =~= entries_bytes(fs) + (seq![125u8] + y));
        assert(s[0] == 125);
    } else if fs.len() == 0 {
        lemma_entries_first_byte(es, seq![125u8] + x);
        assert(s =~= entries_bytes(es) + (seq![125u8] + x));
        assert((entries_bytes(fs) + seq![125u8] + y)[0] == 125);
    } else {
        lemma_entries_unique_cons(es, fs, x, y);
    }
}

proof fn lemma_entries_unique_cons(
    es: Seq<(Seq<char>, ValueView)>,
    fs: Seq<(Seq<char>, ValueView)>,
    x: Seq<u8>,
    y: Seq<u8>,
)
    requires
        es.len() > 0,
        fs.len() > 0,
        entries_bytes(es) + seq![125u8] + x == entries_bytes(fs) + seq![125u8] + y,
    ensures
        es == fs,
        x == y,
    decreases es, 0int,
{
    let s = entries_bytes(es) + seq![125u8] + x;
    lemma_entries_front(es);
    lemma_entries_front(fs);
    let et = es.drop_first();
    let ft = fs.drop_first();
    let xa = (if es.len() > 1 { seq![44u8] + entries_bytes(et) } else { Seq::<u8>::empty() }) + seq![125u8] + x;
    let ya = (if fs.len() > 1 { seq![44u8] + entries_bytes(ft) } else { Seq::<u8>::empty() }) + seq![125u8] + y;
    assert(s =~= entry_bytes(es[0]) + xa);
    assert(s =~= entry_bytes(fs[0]) + ya);
    assert(xa[0] == 44 || xa[0] == 125);
    assert(ya[0] == 44 || ya[0] == 125);
    lemma_entry_unique(es[0], fs[0], xa, ya);
    if es.len() > 1 && fs.len() > 1 {
        assert(xa.drop_first() =~= entries_bytes(et) + seq![125u8] + x);
        assert(ya.drop_first() =~= entries_bytes(ft) + seq![125u8] + y);
        lemma_entries_unique(et, ft, x, y);
        assert(es =~= seq![es[0]] + et);
        assert(fs =~= seq![fs[0]] + ft);
    } else if es.len() > 1 {
        assert(xa[0] == 44 && ya[0] == 125);
    } else if fs.len() > 1 {
        assert(xa[0] == 125 && ya[0] == 44);
    } else {
        assert(x =~= xa.drop_first());
        assert(y =~= ya.drop_first());
        assert(es =~= fs);
    }
}

/// Appends the canonical bytes of values, separated by commas.
pub fn write_items(vs: &Vec<Value>, out: &mut Vec<u8>)
    ensures
        final(out)@ == old(out)@ + items_bytes(values_view(vs@)),
    decreases vs@, 0int,
{
    let ghost start = out@;
    let mut i: usize = 0;
    while i < vs.len()
        invariant
            i <= vs@.len(),
            out@ == start + items_bytes(values_view(vs@).subrange(0, i as int)),
        decreases vs@.len() - i,
    {
        if i > 0 {
            out.push(44);
        }
        write_value(&vs[i], out);
        proof {
            let s = values_view(vs@).subrange(0, i + 1);
            assert(s.drop_last() =~= values_view(vs@).subrange(0, i as int));
            assert(out@ =~= start + items_bytes(s));
        }
        i = i + 1;
    }
    assert(values_view(vs@).subrange(0, vs@.len() as int) =~= values_view(vs@));
}

/// Appends the canonical bytes of named values, separated by commas.
pub fn write_entries(es: &Vec<(String, Value)>, out: &mut Vec<u8>)
    ensures
        final(out)@ == old(out)@ + entries_bytes(entries_view(es@)),
    decreases es@, 0int,
{
    let ghost start = out@;
    let mut i: usize = 0;
    while i < es.len()
        invariant
            i <= es@.len(),
            out@ == start + entries_bytes(entries_view(es@).subrange(0, i as int)),
        decreases es@.len() - i,
    {
        if i > 0 {
            out.push(44);
        }
        write_text(es[i].0.as_str(), out);
        out.push(58);
        write_value(&es[i].1, out);
        proof {
            let s = entries_view(es@).subrange(0, i + 1);
            assert(s.drop_last() =~= entries_view(es@).subrange(0, i as int));
            assert(s.last() == (es@[i as int].0@, es@[i as int].1@));
            assert(entry_bytes(s.last()) == text_bytes(es@[i as int].0@) + seq![58u8] + value_bytes(
                es@[i as int].1@,
            ));
            if i == 0 {
                assert(s.len() == 1);
                assert(entries_bytes(s) == entry_bytes(s[0]));
            } else {
                assert(entries_bytes(s) == entries_bytes(s.drop_last()) + seq![44u8] + entry_bytes(s.last()));
            }
            assert(out@ =~= start + entries_bytes(s));
        }
        i = i + 1;
    }
    assert(entries_view(es@).subrange(0, es@.len() as int) =~= entries_view(es@));
}

} // verus!
