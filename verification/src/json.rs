//! A JSON document model: the records a producer emits and the truth a case declares.
use vstd::prelude::*;
use crate::text::{decimal, decimal_string, push_char, push_text, str_debug, debug_str};

verus! {

/// A JSON number as a parser reports it.
pub enum JsonNumber {
    /// A non-negative integer.
    PosInt(u64),
    /// A negative integer.
    NegInt(i64),
    /// Any other number, kept as its shortest round-trip text (zero is
    /// `0.0`, negative zero `-0.0`).
    Float(String),
}

/// A JSON value. Object members keep their document order.
pub enum JsonValue {
    Null,
    Bool(bool),
    Number(JsonNumber),
    Str(String),
    Array(Vec<JsonValue>),
    Object(Vec<(String, JsonValue)>),
}

/// The texts of zero and of negative zero.
pub open spec fn zero_text(t: Seq<char>) -> bool {
    t == "0.0"@ || t == "-0.0"@
}

/// Numbers are equal when they are the same variant holding the same value;
/// zero and negative zero are the same value.
pub open spec fn number_equal(a: JsonNumber, b: JsonNumber) -> bool {
    match (a, b) {
        (JsonNumber::PosInt(x), JsonNumber::PosInt(y)) => x == y,
        (JsonNumber::NegInt(x), JsonNumber::NegInt(y)) => x == y,
        (JsonNumber::Float(x), JsonNumber::Float(y)) => x@ == y@ || (zero_text(x@) && zero_text(y@)),
        _ => false,
    }
}

/// The first member of `members` named `key`, as an index.
pub open spec fn member_index(members: Seq<(String, JsonValue)>, key: Seq<char>) -> Option<int>
    decreases members.len(),
{
    if members.len() == 0 {
        None
    } else if members[0].0@ == key {
        Some(0)
    } else {
        match member_index(members.drop_first(), key) {
            Some(i) => Some(i + 1),
            None => None,
        }
    }
}

/// `value[key]`: the member of an object named `key`; nothing for any other value.
pub open spec fn get(value: JsonValue, key: Seq<char>) -> Option<JsonValue> {
    match value {
        JsonValue::Object(members) => match member_index(members@, key) {
            Some(i) => Some(members@[i].1),
            None => None,
        },
        _ => None,
    }
}


/// Structural equality: objects compare as maps, independent of member order.
pub open spec fn json_equal(a: JsonValue, b: JsonValue) -> bool
    decreases a,
{
    match (a, b) {
        (JsonValue::Null, JsonValue::Null) => true,
        (JsonValue::Bool(x), JsonValue::Bool(y)) => x == y,
        (JsonValue::Number(x), JsonValue::Number(y)) => number_equal(x, y),
        (JsonValue::Str(x), JsonValue::Str(y)) => x@ == y@,
        (JsonValue::Array(xs), JsonValue::Array(ys)) => {
            &&& xs@.len() == ys@.len()
            &&& forall|i: int| 0 <= i < xs@.len() ==> json_equal(xs@[i], ys@[i])
        },
        (JsonValue::Object(xm), JsonValue::Object(ym)) => {
            &&& xm@.len() == ym@.len()
            &&& forall|i: int|
                0 <= i < xm@.len() ==> match #[trigger] member_index(ym@, xm@[i].0@) {
                    Some(j) => json_equal(xm@[i].1, ym@[j].1),
                    None => false,
                }
        },
        _ => false,
    }
}


/// The first index at which `members` holds `key`, in the form `member_index` gives it.
proof fn lemma_member_index_first(members: Seq<(String, JsonValue)>, key: Seq<char>, i: int)
    requires
        0 <= i <= members.len(),
        forall|j: int| 0 <= j < i ==> #[trigger] members[j].0@ != key,
    ensures
        i < members.len() && members[i].0@ == key ==> member_index(members, key) == Some(i),
        i == members.len() ==> member_index(members, key) is None,
    decreases i,
{
    if i > 0 {
        let rest = members.drop_first();
        assert forall|j: int| 0 <= j < i - 1 implies #[trigger] rest[j].0@ != key by {
            assert(rest[j] == members[j + 1]);
        }
        lemma_member_index_first(rest, key, i - 1);
        assert(members[0].0@ != key);
    }
}

/// Looks `key` up among object members, as `member_index` does.
pub fn find_member(members: &Vec<(String, JsonValue)>, key: &str) -> (r: Option<usize>)
    ensures
        match r {
            Some(i) => i < members@.len() && member_index(members@, key@) == Some(i as int),
            None => member_index(members@, key@) is None,
        },
{
    let wanted = key.to_owned();
    let mut i: usize = 0;
    while i < members.len()
        invariant
            0 <= i <= members@.len(),
            wanted@ == key@,
            forall|j: int| 0 <= j < i ==> #[trigger] members@[j].0@ != key@,
        decreases members@.len() - i,
    {
        if members[i].0 == wanted {
            proof {
                lemma_member_index_first(members@, key@, i as int);
            }
            return Some(i);
        }
        i = i + 1;
    }
    proof {
        lemma_member_index_first(members@, key@, i as int);
    }
    None
}

impl JsonValue {
    /// `self[key]` for an object; `None` for any other value or a missing member.
    pub fn get(&self, key: &str) -> (r: Option<&JsonValue>)
        ensures
            match r {
                Some(v) => get(*self, key@) == Some(*v),
                None => get(*self, key@) is None,
            },
    {
        match self {
            JsonValue::Object(members) => match find_member(members, key) {
                Some(i) => Some(&members[i].1),
                None => None,
            },
            _ => None,
        }
    }
}

fn is_zero_text(t: &String) -> (r: bool)
    ensures
        r == zero_text(t@),
{
    proof {
        reveal_strlit("0.0");
        reveal_strlit("-0.0");
    }
    *t == "0.0".to_owned() || *t == "-0.0".to_owned()
}

fn number_eq(a: &JsonNumber, b: &JsonNumber) -> (r: bool)
    ensures
        r == number_equal(*a, *b),
{
    match (a, b) {
        (JsonNumber::PosInt(x), JsonNumber::PosInt(y)) => *x == *y,
        (JsonNumber::NegInt(x), JsonNumber::NegInt(y)) => *x == *y,
        (JsonNumber::Float(x), JsonNumber::Float(y)) => *x == *y || (is_zero_text(x) && is_zero_text(y)),
        _ => false,
    }
}

/// Structural equality of two documents.
pub fn json_eq(a: &JsonValue, b: &JsonValue) -> (r: bool)
    ensures
        r == json_equal(*a, *b),
    decreases *a,
{
    match (a, b) {
        (JsonValue::Null, JsonValue::Null) => true,
        (JsonValue::Bool(x), JsonValue::Bool(y)) => *x == *y,
        (JsonValue::Number(x), JsonValue::Number(y)) => number_eq(x, y),
        (JsonValue::Str(x), JsonValue::Str(y)) => *x == *y,
        (JsonValue::Array(xs), JsonValue::Array(ys)) => {
            if xs.len() != ys.len() {
                return false;
            }
            let mut i: usize = 0;
            while i < xs.len()
                invariant
                    xs@.len() == ys@.len(),
                    0 <= i <= xs@.len(),
                    *a == JsonValue::Array(*xs),
                    *b == JsonValue::Array(*ys),
                    forall|j: int| 0 <= j < i ==> json_equal(xs@[j], ys@[j]),
                decreases xs@.len() - i,
            {
                assert(decreases_to!(*a => (*a)->Array_0));
                assert(decreases_to!(*xs => xs@));
                assert(decreases_to!(xs@ => xs@[i as int]));
                if !json_eq(&xs[i], &ys[i]) {
                    return false;
                }
                i = i + 1;
            }
            true
        },
        (JsonValue::Object(xm), JsonValue::Object(ym)) => {
            if xm.len() != ym.len() {
                return false;
            }
            let mut i: usize = 0;
            while i < xm.len()
                invariant
                    xm@.len() == ym@.len(),
                    0 <= i <= xm@.len(),
                    *a == JsonValue::Object(*xm),
                    *b == JsonValue::Object(*ym),
                    forall|j: int|
                        0 <= j < i ==> match #[trigger] member_index(ym@, xm@[j].0@) {
                            Some(k) => json_equal(xm@[j].1, ym@[k].1),
                            None => false,
                        },
                decreases xm@.len() - i,
            {
                match find_member(ym, xm[i].0.as_str()) {
                    Some(k) => {
                        assert(decreases_to!(*a => (*a)->Object_0));
                        assert(decreases_to!(*xm => xm@));
                        assert(decreases_to!(xm@ => xm@[i as int]));
                        assert(decreases_to!(xm@[i as int] => xm@[i as int].1));
                        if !json_eq(&xm[i].1, &ym[k].1) {
                            return false;
                        }
                    },
                    None => {
                        return false;
                    },
                }
                i = i + 1;
            }
            true
        },
        _ => false,
    }
}


/// The text of a number, as serde_json writes it.
pub open spec fn number_text(n: JsonNumber) -> Seq<char> {
    match n {
        JsonNumber::PosInt(x) => decimal(x as nat),
        JsonNumber::NegInt(x) => if x < 0 {
            seq!['-'] + decimal((-x) as nat)
        } else {
            decimal(x as nat)
        },
        JsonNumber::Float(t) => t@,
    }
}

/// Four lowercase hexadecimal digits of a control character, as JSON writes them.
pub open spec fn hex_digit(d: nat) -> char {
    if d < 10 {
        (48 + d) as char
    } else {
        (87 + d) as char
    }
}

/// How JSON writes one character inside a string.
pub open spec fn json_escape(c: char) -> Seq<char> {
    if c == '"' {
        seq!['\\', '"']
    } else if c == '\\' {
        seq!['\\', '\\']
    } else if c == '\x08' {
        seq!['\\', 'b']
    } else if c == '\x0c' {
        seq!['\\', 'f']
    } else if c == '\n' {
        seq!['\\', 'n']
    } else if c == '\r' {
        seq!['\\', 'r']
    } else if c == '\t' {
        seq!['\\', 't']
    } else if (c as u32) < 0x20 {
        seq!['\\', 'u', '0', '0', hex_digit((c as u32 / 16) as nat), hex_digit((c as u32 % 16) as nat)]
    } else {
        seq![c]
    }
}

/// The escaped body of a JSON string.
pub open spec fn escaped(s: Seq<char>) -> Seq<char>
    decreases s.len(),
{
    if s.len() == 0 {
        seq![]
    } else {
        escaped(s.drop_last()) + json_escape(s.last())
    }
}

/// A JSON string literal.
pub open spec fn quoted(s: Seq<char>) -> Seq<char> {
    seq!['"'] + escaped(s) + seq!['"']
}

/// The compact JSON text of a value (`Value::to_string`).
pub open spec fn json_text(v: JsonValue) -> Seq<char>
    decreases v, 1nat, 0nat,
{
    match v {
        JsonValue::Null => "null"@,
        JsonValue::Bool(b) => if b {
            "true"@
        } else {
            "false"@
        },
        JsonValue::Number(n) => number_text(n),
        JsonValue::Str(s) => quoted(s@),
        JsonValue::Array(xs) => seq!['['] + parts_text(v, xs@.len()) + seq![']'],
        JsonValue::Object(ms) => seq!['{'] + parts_text(v, ms@.len()) + seq!['}'],
    }
}

/// The first `n` elements (or members) of a container, each as JSON text, joined by commas.
pub open spec fn parts_text(v: JsonValue, n: nat) -> Seq<char>
    decreases v, 0nat, n,
{
    match v {
        JsonValue::Array(xs) => if n == 0 || n > xs@.len() {
            seq![]
        } else {
            let prefix = if n == 1 {
                seq![]
            } else {
                parts_text(v, (n - 1) as nat) + seq![',']
            };
            proof {
                assert(decreases_to!(v => v->Array_0));
                assert(decreases_to!(v->Array_0 => xs@));
                assert(decreases_to!(xs@ => xs@[n - 1]));
            }
            prefix + json_text(xs@[n - 1])
        },
        JsonValue::Object(ms) => if n == 0 || n > ms@.len() {
            seq![]
        } else {
            let prefix = if n == 1 {
                seq![]
            } else {
                parts_text(v, (n - 1) as nat) + seq![',']
            };
            proof {
                assert(decreases_to!(v => v->Object_0));
                assert(decreases_to!(v->Object_0 => ms@));
                assert(decreases_to!(ms@ => ms@[n - 1]));
                assert(decreases_to!(ms@[n - 1] => ms@[n - 1].1));
            }
            prefix + quoted(ms@[n - 1].0@) + seq![':'] + json_text(ms@[n - 1].1)
        },
        _ => seq![],
    }
}

/// What `{:?}` prints for a value.
pub open spec fn json_debug(v: JsonValue) -> Seq<char>
    decreases v, 1nat, 0nat,
{
    match v {
        JsonValue::Null => "Null"@,
        JsonValue::Bool(b) => if b {
            "Bool(true)"@
        } else {
            "Bool(false)"@
        },
        JsonValue::Number(n) => "Number("@ + number_text(n) + seq![')'],
        JsonValue::Str(s) => "String("@ + str_debug(s@) + seq![')'],
        JsonValue::Array(xs) => "Array ["@ + parts_debug(v, xs@.len()) + seq![']'],
        JsonValue::Object(ms) => "Object {"@ + parts_debug(v, ms@.len()) + seq!['}'],
    }
}

/// The first `n` elements (or members) of a container as `{:?}` prints them, joined by `, `.
pub open spec fn parts_debug(v: JsonValue, n: nat) -> Seq<char>
    decreases v, 0nat, n,
{
    match v {
        JsonValue::Array(xs) => if n == 0 || n > xs@.len() {
            seq![]
        } else {
            let prefix = if n == 1 {
                seq![]
            } else {
                parts_debug(v, (n - 1) as nat) + seq![',', ' ']
            };
            proof {
                assert(decreases_to!(v => v->Array_0));
                assert(decreases_to!(v->Array_0 => xs@));
                assert(decreases_to!(xs@ => xs@[n - 1]));
            }
            prefix + json_debug(xs@[n - 1])
        },
        JsonValue::Object(ms) => if n == 0 || n > ms@.len() {
            seq![]
        } else {
            let prefix = if n == 1 {
                seq![]
            } else {
                parts_debug(v, (n - 1) as nat) + seq![',', ' ']
            };
            proof {
                assert(decreases_to!(v => v->Object_0));
                assert(decreases_to!(v->Object_0 => ms@));
                assert(decreases_to!(ms@ => ms@[n - 1]));
                assert(decreases_to!(ms@[n - 1] => ms@[n - 1].1));
            }
            prefix + str_debug(ms@[n - 1].0@) + seq![':', ' '] + json_debug(ms@[n - 1].1)
        },
        _ => seq![],
    }
}


pub fn hex_digit_exec(d: u32) -> (c: char)
    requires
        d < 16,
    ensures
        c == hex_digit(d as nat),
{
    if d < 10 {
        let b: u8 = 48u8 + d as u8;
        b as char
    } else {
        let b: u8 = 87u8 + d as u8;
        b as char
    }
}

/// Appends the JSON escape of one character.
fn push_escaped_char(out: &mut String, c: char)
    ensures
        final(out)@ == old(out)@ + json_escape(c),
{
    let ghost before = out@;
    if c == '"' {
        push_char(out, '\\');
        push_char(out, '"');
    } else if c == '\\' {
        push_char(out, '\\');
        push_char(out, '\\');
    } else if c == '\x08' {
        push_char(out, '\\');
        push_char(out, 'b');
    } else if c == '\x0c' {
        push_char(out, '\\');
        push_char(out, 'f');
    } else if c == '\n' {
        push_char(out, '\\');
        push_char(out, 'n');
    } else if c == '\r' {
        push_char(out, '\\');
        push_char(out, 'r');
    } else if c == '\t' {
        push_char(out, '\\');
        push_char(out, 't');
    } else if (c as u32) < 0x20 {
        let u = c as u32;
        push_char(out, '\\');
        push_char(out, 'u');
        push_char(out, '0');
        push_char(out, '0');
        push_char(out, hex_digit_exec(u / 16));
        push_char(out, hex_digit_exec(u % 16));
    } else {
        push_char(out, c);
    }
    proof {
        assert(out@ =~= before + json_escape(c));
    }
}

/// Appends `s` as a JSON string literal.
pub fn push_quoted(out: &mut String, s: &str)
    ensures
        final(out)@ == old(out)@ + quoted(s@),
{
    let ghost before = out@;
    let cs = crate::text::chars_of(s);
    push_char(out, '"');
    let mut i: usize = 0;
    while i < cs.len()
        invariant
            cs@ == s@,
            0 <= i <= cs@.len(),
            out@ == before + seq!['"'] + escaped(s@.take(i as int)),
        decreases cs@.len() - i,
    {
        proof {
            let t = s@.take(i + 1);
            assert(t.drop_last() == s@.take(i as int));
            assert(t.last() == s@[i as int]);
        }
        push_escaped_char(out, cs[i]);
        i = i + 1;
    }
    push_char(out, '"');
    proof {
        assert(s@.take(s@.len() as int) == s@);
        assert(out@ =~= before + quoted(s@));
    }
}

fn number_to_text(n: &JsonNumber) -> (r: String)
    ensures
        r@ == number_text(*n),
{
    match n {
        JsonNumber::PosInt(x) => decimal_string(*x),
        JsonNumber::NegInt(x) => {
            if *x < 0 {
                let magnitude: u64 = if *x == i64::MIN {
                    9223372036854775808u64
                } else {
                    (0 - *x) as u64
                };
                let mut out = String::new();
                push_char(&mut out, '-');
                let digits = decimal_string(magnitude);
                push_text(&mut out, digits.as_str());
                out
            } else {
                decimal_string(*x as u64)
            }
        },
        JsonNumber::Float(t) => t.clone(),
    }
}

/// `value.to_string()`: the compact JSON text of a value.
pub fn to_json_text(v: &JsonValue) -> (r: String)
    ensures
        r@ == json_text(*v),
    decreases *v,
{
    match v {
        JsonValue::Null => "null".to_owned(),
        JsonValue::Bool(b) => if *b {
            "true".to_owned()
        } else {
            "false".to_owned()
        },
        JsonValue::Number(n) => number_to_text(n),
        JsonValue::Str(s) => {
            let mut out = String::new();
            push_quoted(&mut out, s.as_str());
            out
        },
        JsonValue::Array(xs) => {
            let mut out = String::new();
            push_char(&mut out, '[');
            let mut i: usize = 0;
            while i < xs.len()
                invariant
                    *v == JsonValue::Array(*xs),
                    0 <= i <= xs@.len(),
                    out@ == seq!['['] + parts_text(*v, i as nat),
                decreases xs@.len() - i,
            {
                if i > 0 {
                    push_char(&mut out, ',');
                }
                proof {
                    assert(decreases_to!(*v => (*v)->Array_0));
                    assert(decreases_to!((*v)->Array_0 => xs@));
                    assert(decreases_to!(xs@ => xs@[i as int]));
                }
                let part = to_json_text(&xs[i]);
                push_text(&mut out, part.as_str());
                proof {
                    assert(out@ =~= seq!['['] + parts_text(*v, (i + 1) as nat));
                }
                i = i + 1;
            }
            push_char(&mut out, ']');
            out
        },
        JsonValue::Object(ms) => {
            let mut out = String::new();
            push_char(&mut out, '{');
            let mut i: usize = 0;
            while i < ms.len()
                invariant
                    *v == JsonValue::Object(*ms),
                    0 <= i <= ms@.len(),
                    out@ == seq!['{'] + parts_text(*v, i as nat),
                decreases ms@.len() - i,
            {
                if i > 0 {
                    push_char(&mut out, ',');
                }
                push_quoted(&mut out, ms[i].0.as_str());
                push_char(&mut out, ':');
                proof {
                    assert(decreases_to!(*v => (*v)->Object_0));
                    assert(decreases_to!((*v)->Object_0 => ms@));
                    assert(decreases_to!(ms@ => ms@[i as int]));
                    assert(decreases_to!(ms@[i as int] => ms@[i as int].1));
                }
                let part = to_json_text(&ms[i].1);
                push_text(&mut out, part.as_str());
                proof {
                    assert(out@ =~= seq!['{'] + parts_text(*v, (i + 1) as nat));
                }
                i = i + 1;
            }
            push_char(&mut out, '}');
            out
        },
    }
}

/// `format!("{:?}", value)`.
pub fn to_json_debug(v: &JsonValue) -> (r: String)
    ensures
        r@ == json_debug(*v),
    decreases *v,
{
    match v {
        JsonValue::Null => "Null".to_owned(),
        JsonValue::Bool(b) => if *b {
            "Bool(true)".to_owned()
        } else {
            "Bool(false)".to_owned()
        },
        JsonValue::Number(n) => {
            let mut out = "Number(".to_owned();
            let t = number_to_text(n);
            push_text(&mut out, t.as_str());
            push_char(&mut out, ')');
            out
        },
        JsonValue::Str(s) => {
            let mut out = "String(".to_owned();
            let t = debug_str(s.as_str());
            push_text(&mut out, t.as_str());
            push_char(&mut out, ')');
            out
        },
        JsonValue::Array(xs) => {
            let mut out = "Array [".to_owned();
            let mut i: usize = 0;
            while i < xs.len()
                invariant
                    *v == JsonValue::Array(*xs),
                    0 <= i <= xs@.len(),
                    out@ == "Array ["@ + parts_debug(*v, i as nat),
                decreases xs@.len() - i,
            {
                if i > 0 {
                    push_char(&mut out, ',');
                    push_char(&mut out, ' ');
                }
                proof {
                    assert(decreases_to!(*v => (*v)->Array_0));
                    assert(decreases_to!((*v)->Array_0 => xs@));
                    assert(decreases_to!(xs@ => xs@[i as int]));
                }
                let part = to_json_debug(&xs[i]);
                push_text(&mut out, part.as_str());
                proof {
                    assert(out@ =~= "Array ["@ + parts_debug(*v, (i + 1) as nat));
                }
                i = i + 1;
            }
            push_char(&mut out, ']');
            out
        },
        JsonValue::Object(ms) => {
            let mut out = "Object {".to_owned();
            let mut i: usize = 0;
            while i < ms.len()
                invariant
                    *v == JsonValue::Object(*ms),
                    0 <= i <= ms@.len(),
                    out@ == "Object {"@ + parts_debug(*v, i as nat),
                decreases ms@.len() - i,
            {
                if i > 0 {
                    push_char(&mut out, ',');
                    push_char(&mut out, ' ');
                }
                let key = debug_str(ms[i].0.as_str());
                push_text(&mut out, key.as_str());
                push_char(&mut out, ':');
                push_char(&mut out, ' ');
                proof {
                    assert(decreases_to!(*v => (*v)->Object_0));
                    assert(decreases_to!((*v)->Object_0 => ms@));
                    assert(decreases_to!(ms@ => ms@[i as int]));
                    assert(decreases_to!(ms@[i as int] => ms@[i as int].1));
                }
                let part = to_json_debug(&ms[i].1);
                push_text(&mut out, part.as_str());
                proof {
                    assert(out@ =~= "Object {"@ + parts_debug(*v, (i + 1) as nat));
                }
                i = i + 1;
            }
            push_char(&mut out, '}');
            out
        },
    }
}


/// The elements of `value[key]` when it is an array; none otherwise.
pub open spec fn items(value: JsonValue, key: Seq<char>) -> Seq<JsonValue> {
    match get(value, key) {
        Some(JsonValue::Array(xs)) => xs@,
        _ => seq![],
    }
}

impl JsonValue {
    /// The elements of `self[key]` when it is an array; an empty slice otherwise.
    pub fn items(&self, key: &str) -> (r: &[JsonValue])
        ensures
            r@ == items(*self, key@),
    {
        match self.get(key) {
            Some(JsonValue::Array(xs)) => xs.as_slice(),
            _ => &[],
        }
    }

    /// The text of a string value.
    pub fn as_str(&self) -> (r: Option<&String>)
        ensures
            match *self {
                JsonValue::Str(s) => r == Some(&s),
                _ => r is None,
            },
    {
        match self {
            JsonValue::Str(s) => Some(s),
            _ => None,
        }
    }

    /// A boolean value.
    pub fn as_bool(&self) -> (r: Option<bool>)
        ensures
            match *self {
                JsonValue::Bool(b) => r == Some(b),
                _ => r is None,
            },
    {
        match self {
            JsonValue::Bool(b) => Some(*b),
            _ => None,
        }
    }

    /// A non-negative integer value.
    pub fn as_u64(&self) -> (r: Option<u64>)
        ensures
            match *self {
                JsonValue::Number(JsonNumber::PosInt(n)) => r == Some(n),
                _ => r is None,
            },
    {
        match self {
            JsonValue::Number(JsonNumber::PosInt(n)) => Some(*n),
            _ => None,
        }
    }
}


/// The text of `value[key]` when it is a string.
pub open spec fn get_str(value: JsonValue, key: Seq<char>) -> Option<Seq<char>> {
    match get(value, key) {
        Some(JsonValue::Str(s)) => Some(s@),
        _ => None,
    }
}

/// The text of `value[key]` when it is a string.
pub fn get_string(value: &JsonValue, key: &str) -> (r: Option<String>)
    ensures
        match r {
            Some(s) => get_str(*value, key@) == Some(s@),
            None => get_str(*value, key@) is None,
        },
{
    match value.get(key) {
        Some(JsonValue::Str(s)) => Some(s.clone()),
        _ => None,
    }
}

/// The mathematical content of a value: its strings as character sequences.
pub enum JsonData {
    Null,
    Bool(bool),
    PosInt(u64),
    NegInt(i64),
    Float(Seq<char>),
    Str(Seq<char>),
    Array(Seq<JsonData>),
    Object(Seq<(Seq<char>, JsonData)>),
}

/// The content of a value.
pub open spec fn data(v: JsonValue) -> JsonData
    decreases v, 1nat, 0nat,
{
    match v {
        JsonValue::Null => JsonData::Null,
        JsonValue::Bool(b) => JsonData::Bool(b),
        JsonValue::Number(JsonNumber::PosInt(x)) => JsonData::PosInt(x),
        JsonValue::Number(JsonNumber::NegInt(x)) => JsonData::NegInt(x),
        JsonValue::Number(JsonNumber::Float(t)) => JsonData::Float(t@),
        JsonValue::Str(s) => JsonData::Str(s@),
        JsonValue::Array(xs) => JsonData::Array(elements_data(v, xs@.len())),
        JsonValue::Object(ms) => JsonData::Object(members_data(v, ms@.len())),
    }
}

/// The content of the first `n` elements of an array.
pub open spec fn elements_data(v: JsonValue, n: nat) -> Seq<JsonData>
    decreases v, 0nat, n,
{
    match v {
        JsonValue::Array(xs) => if n == 0 || n > xs@.len() {
            seq![]
        } else {
            proof {
                assert(decreases_to!(v => v->Array_0));
                assert(decreases_to!(v->Array_0 => xs@));
                assert(decreases_to!(xs@ => xs@[n - 1]));
            }
            elements_data(v, (n - 1) as nat).push(data(xs@[n - 1]))
        },
        _ => seq![],
    }
}

/// The content of the first `n` members of an object.
pub open spec fn members_data(v: JsonValue, n: nat) -> Seq<(Seq<char>, JsonData)>
    decreases v, 0nat, n,
{
    match v {
        JsonValue::Object(ms) => if n == 0 || n > ms@.len() {
            seq![]
        } else {
            proof {
                assert(decreases_to!(v => v->Object_0));
                assert(decreases_to!(v->Object_0 => ms@));
                assert(decreases_to!(ms@ => ms@[n - 1]));
                assert(decreases_to!(ms@[n - 1] => ms@[n - 1].1));
            }
            members_data(v, (n - 1) as nat).push((ms@[n - 1].0@, data(ms@[n - 1].1)))
        },
        _ => seq![],
    }
}

/// The content of a list of values.
pub open spec fn list_data(vs: Seq<JsonValue>) -> Seq<JsonData> {
    vs.map_values(|v: JsonValue| data(v))
}

proof fn lemma_elements_data(v: JsonValue, xs: Vec<JsonValue>, n: nat)
    requires
        v == JsonValue::Array(xs),
        n <= xs@.len(),
    ensures
        elements_data(v, n) == list_data(xs@.take(n as int)),
    decreases n,
{
    if n > 0 {
        lemma_elements_data(v, xs, (n - 1) as nat);
        assert(list_data(xs@.take(n as int)) =~= list_data(xs@.take(n - 1)).push(data(xs@[n - 1])));
    } else {
        assert(list_data(xs@.take(0)) =~= seq![]);
    }
}

/// The content of an array is the content of its elements.
pub proof fn lemma_array_data(xs: Vec<JsonValue>)
    ensures
        data(JsonValue::Array(xs)) == JsonData::Array(list_data(xs@)),
{
    lemma_elements_data(JsonValue::Array(xs), xs, xs@.len());
    assert(xs@.take(xs@.len() as int) == xs@);
}

/// A copy of a value.
pub fn copy_json(v: &JsonValue) -> (r: JsonValue)
    ensures
        data(r) == data(*v),
    decreases *v,
{
    match v {
        JsonValue::Null => JsonValue::Null,
        JsonValue::Bool(b) => JsonValue::Bool(*b),
        JsonValue::Number(n) => JsonValue::Number(
            match n {
                JsonNumber::PosInt(x) => JsonNumber::PosInt(*x),
                JsonNumber::NegInt(x) => JsonNumber::NegInt(*x),
                JsonNumber::Float(t) => JsonNumber::Float(t.clone()),
            },
        ),
        JsonValue::Str(s) => JsonValue::Str(s.clone()),
        JsonValue::Array(xs) => {
            let mut out: Vec<JsonValue> = Vec::new();
            let mut i: usize = 0;
            while i < xs.len()
                invariant
                    *v == JsonValue::Array(*xs),
                    0 <= i <= xs@.len(),
                    out@.len() == i,
                    list_data(out@) == list_data(xs@.take(i as int)),
                decreases xs@.len() - i,
            {
                proof {
                    assert(decreases_to!(*v => (*v)->Array_0));
                    assert(decreases_to!((*v)->Array_0 => xs@));
                    assert(decreases_to!(xs@ => xs@[i as int]));
                }
                let ghost before = out@;
                out.push(copy_json(&xs[i]));
                proof {
                    assert(list_data(out@) =~= list_data(before).push(data(xs@[i as int])));
                    assert(list_data(xs@.take(i + 1)) =~= list_data(xs@.take(i as int)).push(data(xs@[i as int])));
                }
                i = i + 1;
            }
            proof {
                assert(xs@.take(xs@.len() as int) == xs@);
                lemma_array_data(*xs);
                lemma_array_data(out);
            }
            JsonValue::Array(out)
        },
        JsonValue::Object(ms) => {
            let mut out: Vec<(String, JsonValue)> = Vec::new();
            let mut i: usize = 0;
            while i < ms.len()
                invariant
                    *v == JsonValue::Object(*ms),
                    0 <= i <= ms@.len(),
                    out@.len() == i,
                    members_data(JsonValue::Object(out), i as nat) == members_data(*v, i as nat),
                decreases ms@.len() - i,
            {
                proof {
                    assert(decreases_to!(*v => (*v)->Object_0));
                    assert(decreases_to!((*v)->Object_0 => ms@));
                    assert(decreases_to!(ms@ => ms@[i as int]));
                    assert(decreases_to!(ms@[i as int] => ms@[i as int].1));
                }
                let ghost before = out;
                let value = copy_json(&ms[i].1);
                out.push((ms[i].0.clone(), value));
                proof {
                    lemma_members_prefix(before, out, i as nat);
                }
                i = i + 1;
            }
            JsonValue::Object(out)
        },
    }
}

proof fn lemma_members_prefix(a: Vec<(String, JsonValue)>, b: Vec<(String, JsonValue)>, n: nat)
    requires
        n <= a@.len(),
        a@.len() <= b@.len(),
        forall|i: int| 0 <= i < n ==> a@[i] == b@[i],
    ensures
        members_data(JsonValue::Object(a), n) == members_data(JsonValue::Object(b), n),
    decreases n,
{
    if n > 0 {
        lemma_members_prefix(a, b, (n - 1) as nat);
    }
}

} // verus!
