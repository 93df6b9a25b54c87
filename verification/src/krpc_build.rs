//! The code generator: turns the JSON service catalogue into source text
//! for a typed API surface. For each service it emits a module holding a
//! service struct, a handle type per class, an enumeration per
//! enumeration, and, per procedure, a call-builder, an invoker and a
//! stream-opener. A procedure whose name starts with a capitalised
//! segment, with more segments after it, becomes a method of that class;
//! a parameter named `this` binds the receiver.

use vstd::prelude::*;
use vstd::string::StrSliceExecFns;
use vstd::string::StringExecFns;

use crate::error::RpcError;

verus! {

/// A parsed JSON value, as plain data: the catalogue model the
/// generator walks. Object members keep their order; lookups take the
/// first member with the asked-for name.
pub enum JsonValue {
    Null,
    Bool(bool),
    Int(i64),
    Str(String),
    Array(Vec<JsonValue>),
    Object(Vec<(String, JsonValue)>),
}

/// Compares two strings by characters.
pub fn str_eq(a: &str, b: &str) -> (r: bool)
    ensures
        r == (a@ == b@),
{
    let alen = a.unicode_len();
    let blen = b.unicode_len();
    if alen != blen {
        proof {
            assert(a@.len() != b@.len());
        }
        return false;
    }
    let mut i: usize = 0;
    while i < alen
        invariant
            i <= alen,
            alen == a@.len() && alen == b@.len(),
            forall|j: int| 0 <= j < i ==> a@[j] == b@[j],
        decreases alen - i,
    {
        if a.get_char(i) != b.get_char(i) {
            return false;
        }
        i = i + 1;
    }
    proof {
        assert(a@ =~= b@);
    }
    true
}

/// The ASCII-lowercased image of a character.
pub open spec fn lower_char(c: char) -> char {
    if 'A' <= c <= 'Z' {
        ((c as u8) + 32) as char
    } else {
        c
    }
}

/// The ASCII-lowercased image of a string.
pub open spec fn lower_seq(s: Seq<char>) -> Seq<char> {
    s.map_values(|c: char| lower_char(c))
}

/// Compares two strings up to ASCII case.
pub fn eq_ignore_ascii(a: &str, b: &str) -> (r: bool)
    ensures
        r == (lower_seq(a@) == lower_seq(b@)),
{
    let alen = a.unicode_len();
    let blen = b.unicode_len();
    if alen != blen {
        proof {
            assert(lower_seq(a@).len() != lower_seq(b@).len());
        }
        return false;
    }
    let mut i: usize = 0;
    while i < alen
        invariant
            i <= alen,
            alen == a@.len() && alen == b@.len(),
            forall|j: int| 0 <= j < i ==> lower_char(a@[j]) == lower_char(b@[j]),
        decreases alen - i,
    {
        let ca = a.get_char(i);
        let cb = b.get_char(i);
        let la: char = if 'A' <= ca && ca <= 'Z' {
            ((ca as u8) + 32) as char
        } else {
            ca
        };
        let lb: char = if 'A' <= cb && cb <= 'Z' {
            ((cb as u8) + 32) as char
        } else {
            cb
        };
        if la != lb {
            proof {
                assert(lower_seq(a@)[i as int] != lower_seq(b@)[i as int]);
            }
            return false;
        }
        i = i + 1;
    }
    proof {
        assert(lower_seq(a@) =~= lower_seq(b@));
    }
    true
}

impl JsonValue {
    /// The member of an object under `key`: the first member with that
    /// name, as JSON lookup takes it. Nothing on other kinds of value.
    pub open spec fn spec_get(&self, key: Seq<char>) -> Option<JsonValue> {
        match self {
            JsonValue::Object(members) => spec_get_member(members@, key),
            _ => None,
        }
    }

    /// Looks a member up by name.
    pub fn get<'a>(&'a self, key: &str) -> (r: Option<&'a JsonValue>)
        ensures
            r matches Some(v) ==> self.spec_get(key@) == Some(*v),
            r is None ==> self.spec_get(key@) is None,
    {
        match self {
            JsonValue::Object(members) => {
                let ghost ms = members@;
                let mut i: usize = 0;
                proof {
                    assert(ms.skip(0) =~= ms);
                }
                while i < members.len()
                    invariant
                        i <= ms.len(),
                        ms == members@,
                        self.spec_get(key@) == spec_get_member(ms, key@),
                        forall|j: int| 0 <= j < i ==> (#[trigger] ms[j]).0@ != key@,
                        spec_get_member(ms, key@) == spec_get_member(ms.skip(i as int), key@),
                    decreases ms.len() - i,
                {
                    proof {
                        assert(ms.skip(i as int)[0] == ms[i as int]);
                        assert(ms.skip(i as int).drop_first() =~= ms.skip(i + 1));
                    }
                    if str_eq(members[i].0.as_str(), key) {
                        proof {
                            assert(spec_get_member(ms.skip(i as int), key@)
                                == Some(ms[i as int].1));
                        }
                        return Some(&members[i].1);
                    }
                    i = i + 1;
                }
                proof {
                    assert(ms.skip(i as int).len() == 0);
                }
                None
            },
            _ => None,
        }
    }

    /// The member values of an object, in order; nothing otherwise.
    pub fn as_object<'a>(&'a self) -> (r: Option<&'a Vec<(String, JsonValue)>>)
        ensures
            self is Object <==> r is Some,
            r matches Some(v) ==> self == JsonValue::Object(*v),
    {
        match self {
            JsonValue::Object(members) => Some(members),
            _ => None,
        }
    }

    /// The items of an array, in order; nothing otherwise.
    pub fn as_array<'a>(&'a self) -> (r: Option<&'a Vec<JsonValue>>)
        ensures
            self is Array <==> r is Some,
            r matches Some(v) ==> self == JsonValue::Array(*v),
    {
        match self {
            JsonValue::Array(items) => Some(items),
            _ => None,
        }
    }

    /// The text of a string value; nothing otherwise.
    pub fn as_str<'a>(&'a self) -> (r: Option<&'a str>)
        ensures
            self is Str <==> r is Some,
            r matches Some(s) ==> self->Str_0@ == s@,
    {
        match self {
            JsonValue::Str(s) => Some(s.as_str()),
            _ => None,
        }
    }

    /// The truth of a boolean value; nothing otherwise.
    pub fn as_bool(&self) -> (r: Option<bool>)
        ensures
            self is Bool <==> r is Some,
            r matches Some(b) ==> self == JsonValue::Bool(b),
    {
        match self {
            JsonValue::Bool(b) => Some(*b),
            _ => None,
        }
    }
}

/// The first member with the given name, scanned front to back.
pub open spec fn spec_get_member(
    members: Seq<(String, JsonValue)>,
    key: Seq<char>,
) -> Option<JsonValue>
    decreases members.len(),
{
    if members.len() == 0 {
        None
    } else if members[0].0@ == key {
        Some(members[0].1)
    } else {
        spec_get_member(members.drop_first(), key)
    }
}


/// The views of a run of strings.
pub open spec fn str_views(s: Seq<String>) -> Seq<Seq<char>>
    decreases s.len(),
{
    if s.len() == 0 {
        Seq::empty()
    } else {
        seq![s[0]@] + str_views(s.drop_first())
    }
}

pub proof fn lemma_str_views(s: Seq<String>)
    ensures
        str_views(s).len() == s.len(),
        forall|i: int| 0 <= i < s.len() ==> str_views(s)[i] == s[i]@,
    decreases s.len(),
{
    if s.len() > 0 {
        lemma_str_views(s.drop_first());
        assert(forall|i: int| 1 <= i < s.len()
            ==> str_views(s)[i] == str_views(s.drop_first())[i - 1]);
    }
}

/// The parts joined with underscores between them.
pub open spec fn join_underscore(parts: Seq<Seq<char>>) -> Seq<char>
    decreases parts.len(),
{
    if parts.len() == 0 {
        Seq::empty()
    } else if parts.len() == 1 {
        parts[0]
    } else {
        parts[0] + seq!['_'] + join_underscore(parts.drop_first())
    }
}

proof fn lemma_join_snoc(parts: Seq<Seq<char>>, x: Seq<char>)
    ensures
        join_underscore(parts.push(x)) == if parts.len() == 0 {
            x
        } else {
            join_underscore(parts) + seq!['_'] + x
        },
    decreases parts.len(),
{
    if parts.len() == 0 {
        assert(parts.push(x)[0] == x);
        assert(join_underscore(parts.push(x)) == x);
    } else if parts.len() == 1 {
        assert(parts.push(x)[0] == parts[0]);
        assert(parts.push(x).drop_first() =~= Seq::<Seq<char>>::empty().push(x));
        lemma_join_snoc(Seq::<Seq<char>>::empty(), x);
        assert(join_underscore(parts.push(x)) =~= join_underscore(parts) + seq!['_'] + x);
    } else {
        assert(parts.push(x)[0] == parts[0]);
        assert(parts.push(x).drop_first() =~= parts.drop_first().push(x));
        lemma_join_snoc(parts.drop_first(), x);
        assert(join_underscore(parts.push(x))
            =~= join_underscore(parts) + seq!['_'] + x);
    }
}

/// The parts of a name split on underscores: always at least one part;
/// adjacent underscores and underscores at either end yield empty parts.
pub open spec fn spec_split(s: Seq<char>) -> Seq<Seq<char>>
    decreases s.len(),
{
    if s.len() == 0 {
        seq![Seq::<char>::empty()]
    } else {
        let rest = spec_split(s.drop_first());
        if s[0] == '_' {
            seq![Seq::<char>::empty()] + rest
        } else {
            seq![seq![s[0]] + rest[0]] + rest.drop_first()
        }
    }
}

pub proof fn lemma_spec_split_len(s: Seq<char>)
    ensures
        spec_split(s).len() >= 1,
    decreases s.len(),
{
    if s.len() > 0 {
        lemma_spec_split_len(s.drop_first());
    }
}

/// Splits a name on underscores.
pub fn split_name(name: &str) -> (r: Vec<String>)
    ensures
        r@.len() >= 1,
        str_views(r@) == spec_split(name@),
    decreases name@.len(),
{
    let n = name.unicode_len();
    if n == 0 {
        let mut out: Vec<String> = Vec::new();
        out.push(String::new());
        proof {
            lemma_str_views(out@);
            assert(str_views(out@) =~= spec_split(name@));
        }
        return out;
    }
    let tail = name.substring_char(1, n);
    proof {
        assert(tail@ =~= name@.drop_first());
        lemma_spec_split_len(tail@);
    }
    let rest = split_name(tail);
    let ghost rvs = str_views(rest@);
    proof {
        lemma_str_views(rest@);
    }
    let mut out: Vec<String> = Vec::new();
    if name.get_char(0) == '_' {
        out.push(String::new());
        proof {
            lemma_str_views(out@);
        }
        let mut i: usize = 0;
        while i < rest.len()
            invariant
                i <= rest@.len(),
                rvs == str_views(rest@),
                rvs.len() == rest@.len(),
                forall|j: int| 0 <= j < rest@.len() ==> rvs[j] == rest@[j]@,
                out@.len() == i + 1,
                str_views(out@).len() == out@.len(),
                forall|j: int| 0 <= j < out@.len() ==> str_views(out@)[j] == out@[j]@,
                out@[0]@ == Seq::<char>::empty(),
                forall|j: int| 1 <= j < out@.len() ==> out@[j]@ == rvs[j - 1],
            decreases rest@.len() - i,
        {
            let ghost old_out = out@;
            let cl = rest[i].clone();
            out.push(cl);
            proof {
                lemma_str_views(out@);
            }
            i = i + 1;
        }
        proof {
            lemma_str_views(out@);
            assert(str_views(out@) =~= seq![Seq::<char>::empty()] + rvs);
        }
    } else {
        let mut first = name.substring_char(0, 1).to_owned();
        proof {
            assert(name@.subrange(0, 1) =~= seq![name@[0]]);
        }
        first.append(rest[0].as_str());
        out.push(first);
        proof {
            lemma_str_views(out@);
        }
        let mut i: usize = 1;
        while i < rest.len()
            invariant
                1 <= i <= rest@.len(),
                rvs == str_views(rest@),
                rvs.len() == rest@.len(),
                forall|j: int| 0 <= j < rest@.len() ==> rvs[j] == rest@[j]@,
                out@.len() == i,
                str_views(out@).len() == out@.len(),
                forall|j: int| 0 <= j < out@.len() ==> str_views(out@)[j] == out@[j]@,
                out@[0]@ == seq![name@[0]] + rvs[0],
                forall|j: int| 1 <= j < out@.len() ==> out@[j]@ == rvs[j],
            decreases rest@.len() - i,
        {
            let cl = rest[i].clone();
            out.push(cl);
            proof {
                lemma_str_views(out@);
            }
            i = i + 1;
        }
        proof {
            lemma_str_views(out@);
            assert(str_views(out@)
                =~= seq![seq![name@[0]] + rvs[0]] + rvs.drop_first());
        }
    }
    out
}

/// The decimal digits of `n`.
pub open spec fn dec_str(n: nat) -> Seq<char>
    decreases n,
{
    if n < 10 {
        seq![(('0' as u8) + n) as char]
    } else {
        dec_str(n / 10) + seq![(('0' as u8) + n % 10) as char]
    }
}

/// One decimal digit as text.
fn digit_str(d: u64) -> (r: &'static str)
    requires
        d < 10,
    ensures
        r@ == seq![(('0' as u8) + d) as char],
{
    proof {
        reveal_strlit("0");
        reveal_strlit("1");
        reveal_strlit("2");
        reveal_strlit("3");
        reveal_strlit("4");
        reveal_strlit("5");
        reveal_strlit("6");
        reveal_strlit("7");
        reveal_strlit("8");
        reveal_strlit("9");
    }
    if d == 0 {
        "0"
    } else if d == 1 {
        "1"
    } else if d == 2 {
        "2"
    } else if d == 3 {
        "3"
    } else if d == 4 {
        "4"
    } else if d == 5 {
        "5"
    } else if d == 6 {
        "6"
    } else if d == 7 {
        "7"
    } else if d == 8 {
        "8"
    } else {
        "9"
    }
}

/// Renders `n` in decimal.
pub fn u64_to_decimal(n: u64) -> (r: String)
    ensures
        r@ == dec_str(n as nat),
    decreases n,
{
    if n < 10 {
        digit_str(n).to_owned()
    } else {
        let mut s = u64_to_decimal(n / 10);
        s.append(digit_str(n % 10));
        proof {
            assert(s@ =~= dec_str(n as nat));
        }
        s
    }
}

/// What convert_case's snake-casing returns for a string: lower-case
/// words joined by underscores, split on existing delimiters and on
/// word boundaries within camel-cased text.
pub uninterp spec fn snake_of(s: Seq<char>) -> Seq<char>;

/// Relies on convert_case's `Casing::to_case` with the snake-case
/// target: the result depends on the characters of the input alone.
#[verifier::external_body]
fn to_snake(s: &str) -> (r: String)
    ensures
        r@ == snake_of(s@),
{
    convert_case::Casing::to_case(&s, convert_case::Case::Snake)
}

/// Rewrites a parameter name that collides with a language keyword into
/// its raw form, and touches nothing else.
pub fn rewrite_keywords(sample: String) -> (r: String)
    ensures
        sample@ == "type"@ ==> r@ == "r#type"@,
        sample@ != "type"@ ==> r@ == sample@,
{
    if str_eq(sample.as_str(), "type") {
        "r#type".to_owned()
    } else {
        sample
    }
}

/// The name starts with an ASCII capital.
pub open spec fn starts_upper(s: Seq<char>) -> bool {
    s.len() > 0 && 'A' <= s[0] && s[0] <= 'Z'
}

/// Infers the receiver class of a procedure from its split name: the
/// first segment names the class exactly when it starts with a capital
/// letter and at least one further segment follows.
pub fn get_struct(proc_tokens: &Vec<String>) -> (r: Option<String>)
    requires
        proc_tokens@.len() >= 1,
    ensures
        r is Some <==> (proc_tokens@.len() > 1 && starts_upper(proc_tokens@[0]@)),
        r matches Some(s) ==> s@ == proc_tokens@[0]@,
{
    if proc_tokens.len() <= 1 {
        return None;
    }
    let first = proc_tokens[0].as_str();
    if first.unicode_len() == 0 {
        return None;
    }
    let c = first.get_char(0);
    if 'A' <= c && c <= 'Z' {
        Some(first.to_owned())
    } else {
        None
    }
}

/// The segments a procedure's own name keeps: all of them for a
/// service-level procedure, all but the class segment for a method.
pub open spec fn own_segments(tokens: Seq<String>) -> Seq<String> {
    if tokens.len() > 1 && starts_upper(tokens[0]@) {
        tokens.drop_first()
    } else {
        tokens
    }
}

/// The generated function name of a procedure: its own segments joined
/// with underscores and lower-snake-cased.
pub fn get_fn_name(proc_tokens: &Vec<String>) -> (r: String)
    requires
        proc_tokens@.len() >= 1,
    ensures
        r@ == snake_of(join_underscore(str_views(own_segments(proc_tokens@)))),
{
    let class = get_struct(proc_tokens);
    let from: usize = match class {
        Some(_) => 1,
        None => 0,
    };
    let mut joined: String = String::new();
    let mut i: usize = from;
    let ghost own = own_segments(proc_tokens@);
    proof {
        lemma_str_views(own);
        assert(forall|j: int| 0 <= j < own.len() ==> own[j] == proc_tokens@[j + from]);
        assert(str_views(own).take(0) =~= Seq::<Seq<char>>::empty());
        assert(joined@ =~= join_underscore(str_views(own).take(0)));
    }
    while i < proc_tokens.len()
        invariant
            from <= i <= proc_tokens@.len(),
            from == (if proc_tokens@.len() > 1 && starts_upper(proc_tokens@[0]@) {
                1int
            } else {
                0int
            }),
            own == own_segments(proc_tokens@),
            own.len() == proc_tokens@.len() - from,
            forall|j: int| 0 <= j < own.len() ==> own[j] == proc_tokens@[j + from],
            joined@ == join_underscore(str_views(own).take(i - from)),
        decreases proc_tokens@.len() - i,
    {
        if i > from {
            proof {
                reveal_strlit("_");
            }
            joined.append("_");
        }
        joined.append(proc_tokens[i].as_str());
        proof {
            lemma_str_views(own);
            let k = i - from;
            assert(own[k]@ == proc_tokens@[i as int]@);
            assert(str_views(own).take(k + 1) =~= str_views(own).take(k).push(own[k]@));
            lemma_join_snoc(str_views(own).take(k), own[k]@);
            if k == 0 {
                assert(joined@ =~= join_underscore(str_views(own).take(k + 1)));
            } else {
                assert("_"@ =~= seq!['_']) by {
                    reveal_strlit("_");
                };
                assert(joined@ =~= join_underscore(str_views(own).take(k + 1)));
            }
        }
        i = i + 1;
    }
    proof {
        assert(str_views(own).take(own.len() as int) =~= str_views(own));
    }
    to_snake(joined.as_str())
}


/// The parts joined with comma-space between them.
pub open spec fn join_comma(parts: Seq<Seq<char>>) -> Seq<char>
    decreases parts.len(),
{
    if parts.len() == 0 {
        Seq::empty()
    } else if parts.len() == 1 {
        parts[0]
    } else {
        parts[0] + ", "@ + join_comma(parts.drop_first())
    }
}

/// The generated path of a class or enumeration handle type: the
/// service module, snake-cased, then the type's own name.
pub open spec fn spec_class_text(ty: JsonValue) -> Option<Seq<char>> {
    match ty.spec_get("service"@) {
        Some(JsonValue::Str(service)) => match ty.spec_get("name"@) {
            Some(JsonValue::Str(name)) => Some(
                "crate::services::"@ + snake_of(service@) + "::"@ + name@),
            _ => None,
        },
        _ => None,
    }
}

/// The generated type text of a type description, by its code: the
/// type-mapping table of the generator. `borrow` borrows class handles
/// in parameter position; `nullable` wraps the type in an option.
/// Nothing for a malformed description or past the recursion bound.
pub open spec fn spec_decode_type(ty: JsonValue, borrow: bool, nullable: bool, depth: nat)
    -> Option<Seq<char>>
    decreases depth, 0nat,
{
    if depth == 0 {
        None
    } else {
        match ty.spec_get("code"@) {
            Some(JsonValue::Str(code)) => {
                let base = if code@ == "STRING"@ {
                    Some("String"@)
                } else if code@ == "SINT32"@ {
                    Some("i32"@)
                } else if code@ == "UINT32"@ {
                    Some("u32"@)
                } else if code@ == "UINT64"@ {
                    Some("u64"@)
                } else if code@ == "BOOL"@ {
                    Some("bool"@)
                } else if code@ == "FLOAT"@ {
                    Some("f32"@)
                } else if code@ == "DOUBLE"@ {
                    Some("f64"@)
                } else if code@ == "BYTES"@ {
                    Some("Vec<u8>"@)
                } else if code@ == "TUPLE"@ {
                    match ty.spec_get("types"@) {
                        Some(JsonValue::Array(items)) => match spec_type_list(
                            items@, (depth - 1) as nat) {
                            Some(t) => Some("("@ + t + ")"@),
                            None => None,
                        },
                        _ => None,
                    }
                } else if code@ == "LIST"@ {
                    match ty.spec_get("types"@) {
                        Some(JsonValue::Array(items)) => if items@.len() >= 1 {
                            match spec_decode_type(items@[0], false, false,
                                (depth - 1) as nat) {
                                Some(t) => Some("Vec<"@ + t + ">"@),
                                None => None,
                            }
                        } else {
                            None
                        },
                        _ => None,
                    }
                } else if code@ == "SET"@ {
                    match ty.spec_get("types"@) {
                        Some(JsonValue::Array(items)) => if items@.len() >= 1 {
                            match spec_decode_type(items@[0], false, false,
                                (depth - 1) as nat) {
                                Some(t) => Some("std::collections::HashSet<"@ + t + ">"@),
                                None => None,
                            }
                        } else {
                            None
                        },
                        _ => None,
                    }
                } else if code@ == "DICTIONARY"@ {
                    match ty.spec_get("types"@) {
                        Some(JsonValue::Array(items)) => if items@.len() >= 2 {
                            match spec_decode_type(items@[0], false, false,
                                (depth - 1) as nat) {
                                Some(k) => match spec_decode_type(items@[1], false, false,
                                    (depth - 1) as nat) {
                                    Some(v) => Some("std::collections::HashMap<"@ + k
                                        + ", "@ + v + ">"@),
                                    None => None,
                                },
                                None => None,
                            }
                        } else {
                            None
                        },
                        _ => None,
                    }
                } else if code@ == "ENUMERATION"@ || code@ == "CLASS"@ {
                    spec_class_text(ty)
                } else if code@ == "EVENT"@ {
                    Some("crate::schema::Event"@)
                } else if code@ == "PROCEDURE_CALL"@ {
                    Some("crate::schema::ProcedureCall"@)
                } else if code@ == "STREAM"@ {
                    Some("crate::schema::Stream"@)
                } else if code@ == "SERVICES"@ {
                    Some("crate::schema::Services"@)
                } else if code@ == "STATUS"@ {
                    Some("crate::schema::Status"@)
                } else {
                    Some(Seq::<char>::empty())
                };
                match base {
                    None => None,
                    Some(t) => {
                        let t2 = if borrow && code@ == "CLASS"@ {
                            "&"@ + t
                        } else {
                            t
                        };
                        Some(if nullable {
                            "Option<"@ + t2 + ">"@
                        } else {
                            t2
                        })
                    },
                }
            },
            _ => None,
        }
    }
}

/// The comma-joined generated types of a run of type descriptions.
pub open spec fn spec_type_list(items: Seq<JsonValue>, depth: nat) -> Option<Seq<char>>
    decreases depth, items.len() + 1,
{
    if items.len() == 0 {
        Some(Seq::<char>::empty())
    } else if items.len() == 1 {
        spec_decode_type(items[0], false, false, depth)
    } else {
        match spec_decode_type(items[0], false, false, depth) {
            None => None,
            Some(t) => match spec_type_list(items.drop_first(), depth) {
                None => None,
                Some(rest) => Some(t + ", "@ + rest),
            },
        }
    }
}

/// Renders the generated path of a class or enumeration handle type.
pub fn decode_class(ty: &JsonValue) -> (r: Result<String, RpcError>)
    ensures
        r matches Ok(s) ==> spec_class_text(*ty) == Some(s@),
        r is Err ==> spec_class_text(*ty) is None,
{
    let service = match ty.get("service") {
        Some(v) => match v.as_str() {
            Some(s) => s,
            None => {
                return Err(RpcError::Encoding("malformed type description".to_owned()));
            },
        },
        None => {
            return Err(RpcError::Encoding("malformed type description".to_owned()));
        },
    };
    let name = match ty.get("name") {
        Some(v) => match v.as_str() {
            Some(s) => s,
            None => {
                return Err(RpcError::Encoding("malformed type description".to_owned()));
            },
        },
        None => {
            return Err(RpcError::Encoding("malformed type description".to_owned()));
        },
    };
    let mut out = "crate::services::".to_owned();
    let snake = to_snake(service);
    out.append(snake.as_str());
    out.append("::");
    out.append(name);
    proof {
        assert(out@ =~= spec_class_text(*ty)->Some_0);
    }
    Ok(out)
}

/// Renders the comma-joined generated types of a run of descriptions,
/// from `from` on.
fn decode_type_list(items: &Vec<JsonValue>, from: usize, depth: u64) -> (r: Result<
    String,
    RpcError,
>)
    requires
        from <= items@.len(),
    ensures
        r matches Ok(s) ==> spec_type_list(items@.skip(from as int), depth as nat) == Some(s@),
        r is Err ==> spec_type_list(items@.skip(from as int), depth as nat) is None,
    decreases depth, 1nat, items@.len() - from,
{
    let ghost rest = items@.skip(from as int);
    if from == items.len() {
        proof {
            assert(rest.len() == 0);
        }
        return Ok(String::new());
    }
    proof {
        assert(rest[0] == items@[from as int]);
        assert(rest.drop_first() =~= items@.skip(from as int + 1));
    }
    let head = match decode_type(&items[from], false, false, depth) {
        Ok(t) => t,
        Err(e) => {
            return Err(e);
        },
    };
    if from + 1 == items.len() {
        proof {
            assert(rest.len() == 1);
        }
        return Ok(head);
    }
    let tail = match decode_type_list(items, from + 1, depth) {
        Ok(t) => t,
        Err(e) => {
            return Err(e);
        },
    };
    let mut out = head;
    out.append(", ");
    out.append(tail.as_str());
    proof {
        assert(out@ =~= spec_type_list(rest, depth as nat)->Some_0);
    }
    Ok(out)
}

/// Renders the tuple type of a description.
pub fn decode_tuple(ty: &JsonValue, depth: u64) -> (r: Result<String, RpcError>)
    ensures
        r matches Ok(s) ==> (match ty.spec_get("types"@) {
            Some(JsonValue::Array(items)) => spec_type_list(items@, depth as nat)
                matches Some(t) && s@ == "("@ + t + ")"@,
            _ => false,
        }),
        r is Err ==> (match ty.spec_get("types"@) {
            Some(JsonValue::Array(items)) => spec_type_list(items@, depth as nat) is None,
            _ => true,
        }),
    decreases depth, 2nat, 0nat,
{
    let items = match ty.get("types") {
        Some(v) => match v.as_array() {
            Some(a) => a,
            None => {
                return Err(RpcError::Encoding("malformed type description".to_owned()));
            },
        },
        None => {
            return Err(RpcError::Encoding("malformed type description".to_owned()));
        },
    };
    proof {
        assert(items@.skip(0) =~= items@);
    }
    let inner = match decode_type_list(items, 0, depth) {
        Ok(t) => t,
        Err(e) => {
            return Err(e);
        },
    };
    let mut out = "(".to_owned();
    out.append(inner.as_str());
    out.append(")");
    proof {
        assert(out@ =~= "("@ + spec_type_list(items@, depth as nat)->Some_0 + ")"@);
    }
    Ok(out)
}

/// Renders the generated type text of a type description: the
/// type-mapping table, as `spec_decode_type` lays it out.
pub fn decode_type(ty: &JsonValue, borrow: bool, nullable: bool, depth: u64) -> (r: Result<
    String,
    RpcError,
>)
    ensures
        r matches Ok(s) ==> spec_decode_type(*ty, borrow, nullable, depth as nat) == Some(s@),
        r is Err ==> spec_decode_type(*ty, borrow, nullable, depth as nat) is None,
    decreases depth, 0nat, 0nat,
{
    if depth == 0 {
        return Err(RpcError::Encoding("type description too deep".to_owned()));
    }
    let code = match ty.get("code") {
        Some(v) => match v.as_str() {
            Some(s) => s,
            None => {
                return Err(RpcError::Encoding("malformed type description".to_owned()));
            },
        },
        None => {
            return Err(RpcError::Encoding("malformed type description".to_owned()));
        },
    };
    let base: String = if str_eq(code, "STRING") {
        "String".to_owned()
    } else if str_eq(code, "SINT32") {
        "i32".to_owned()
    } else if str_eq(code, "UINT32") {
        "u32".to_owned()
    } else if str_eq(code, "UINT64") {
        "u64".to_owned()
    } else if str_eq(code, "BOOL") {
        "bool".to_owned()
    } else if str_eq(code, "FLOAT") {
        "f32".to_owned()
    } else if str_eq(code, "DOUBLE") {
        "f64".to_owned()
    } else if str_eq(code, "BYTES") {
        "Vec<u8>".to_owned()
    } else if str_eq(code, "TUPLE") {
        match decode_tuple(ty, depth - 1) {
            Ok(t) => t,
            Err(e) => {
                return Err(e);
            },
        }
    } else if str_eq(code, "LIST") {
        match decode_element_type(ty, depth - 1) {
            Ok(t) => {
                let mut out = "Vec<".to_owned();
                out.append(t.as_str());
                out.append(">");
                out
            },
            Err(e) => {
                return Err(e);
            },
        }
    } else if str_eq(code, "SET") {
        match decode_element_type(ty, depth - 1) {
            Ok(t) => {
                let mut out = "std::collections::HashSet<".to_owned();
                out.append(t.as_str());
                out.append(">");
                out
            },
            Err(e) => {
                return Err(e);
            },
        }
    } else if str_eq(code, "DICTIONARY") {
        match decode_dictionary(ty, depth - 1) {
            Ok(t) => t,
            Err(e) => {
                return Err(e);
            },
        }
    } else if str_eq(code, "ENUMERATION") || str_eq(code, "CLASS") {
        match decode_class(ty) {
            Ok(t) => t,
            Err(e) => {
                return Err(e);
            },
        }
    } else if str_eq(code, "EVENT") {
        "crate::schema::Event".to_owned()
    } else if str_eq(code, "PROCEDURE_CALL") {
        "crate::schema::ProcedureCall".to_owned()
    } else if str_eq(code, "STREAM") {
        "crate::schema::Stream".to_owned()
    } else if str_eq(code, "SERVICES") {
        "crate::schema::Services".to_owned()
    } else if str_eq(code, "STATUS") {
        "crate::schema::Status".to_owned()
    } else {
        String::new()
    };
    let borrowed: String = if borrow && str_eq(code, "CLASS") {
        let mut out = "&".to_owned();
        out.append(base.as_str());
        out
    } else {
        base
    };
    let wrapped: String = if nullable {
        let mut out = "Option<".to_owned();
        out.append(borrowed.as_str());
        out.append(">");
        out
    } else {
        borrowed
    };
    proof {
        assert(spec_decode_type(*ty, borrow, nullable, depth as nat) == Some(wrapped@)) by {
            assert(wrapped@ =~= spec_decode_type(*ty, borrow, nullable, depth as nat)->Some_0);
        };
    }
    Ok(wrapped)
}

/// Renders the element type of a list or set description.
fn decode_element_type(ty: &JsonValue, depth: u64) -> (r: Result<String, RpcError>)
    ensures
        r matches Ok(s) ==> (match ty.spec_get("types"@) {
            Some(JsonValue::Array(items)) => items@.len() >= 1
                && spec_decode_type(items@[0], false, false, depth as nat) == Some(s@),
            _ => false,
        }),
        r is Err ==> (match ty.spec_get("types"@) {
            Some(JsonValue::Array(items)) => items@.len() == 0
                || spec_decode_type(items@[0], false, false, depth as nat) is None,
            _ => true,
        }),
    decreases depth, 2nat, 0nat,
{
    let items = match ty.get("types") {
        Some(v) => match v.as_array() {
            Some(a) => a,
            None => {
                return Err(RpcError::Encoding("malformed type description".to_owned()));
            },
        },
        None => {
            return Err(RpcError::Encoding("malformed type description".to_owned()));
        },
    };
    if items.len() == 0 {
        return Err(RpcError::Encoding("malformed type description".to_owned()));
    }
    decode_type(&items[0], false, false, depth)
}

/// The parameter list of a procedure definition.
pub fn get_params<'a>(json: &'a JsonValue) -> (r: Result<&'a Vec<JsonValue>, RpcError>)
    ensures
        r matches Ok(ps) ==> json.spec_get("parameters"@) == Some(JsonValue::Array(*ps)),
        r is Err ==> (match json.spec_get("parameters"@) {
            Some(JsonValue::Array(ps)) => false,
            _ => true,
        }),
{
    match json.get("parameters") {
        Some(v) => match v.as_array() {
            Some(a) => Ok(a),
            None => Err(RpcError::Encoding("malformed procedure".to_owned())),
        },
        None => Err(RpcError::Encoding("malformed procedure".to_owned())),
    }
}

/// Renders the list type of a description.
pub fn decode_list(ty: &JsonValue, depth: u64) -> (r: Result<String, RpcError>)
    ensures
        r matches Ok(s) ==> (match ty.spec_get("types"@) {
            Some(JsonValue::Array(items)) => items@.len() >= 1
                && (spec_decode_type(items@[0], false, false, depth as nat) matches Some(t)
                    && s@ == "Vec<"@ + t + ">"@),
            _ => false,
        }),
        r is Err ==> (match ty.spec_get("types"@) {
            Some(JsonValue::Array(items)) => items@.len() == 0
                || spec_decode_type(items@[0], false, false, depth as nat) is None,
            _ => true,
        }),
    decreases depth, 3nat, 0nat,
{
    let t = match decode_element_type(ty, depth) {
        Ok(t) => t,
        Err(e) => {
            return Err(e);
        },
    };
    let mut out = "Vec<".to_owned();
    out.append(t.as_str());
    out.append(">");
    proof {
        assert(out@ =~= "Vec<"@
            + (match ty.spec_get("types"@) {
                Some(JsonValue::Array(items)) => spec_decode_type(items@[0], false, false,
                    depth as nat)->Some_0,
                _ => Seq::<char>::empty(),
            }) + ">"@);
    }
    Ok(out)
}

/// Renders the set type of a description.
pub fn decode_set(ty: &JsonValue, depth: u64) -> (r: Result<String, RpcError>)
    ensures
        r matches Ok(s) ==> (match ty.spec_get("types"@) {
            Some(JsonValue::Array(items)) => items@.len() >= 1
                && (spec_decode_type(items@[0], false, false, depth as nat) matches Some(t)
                    && s@ == "std::collections::HashSet<"@ + t + ">"@),
            _ => false,
        }),
        r is Err ==> (match ty.spec_get("types"@) {
            Some(JsonValue::Array(items)) => items@.len() == 0
                || spec_decode_type(items@[0], false, false, depth as nat) is None,
            _ => true,
        }),
    decreases depth, 3nat, 0nat,
{
    let t = match decode_element_type(ty, depth) {
        Ok(t) => t,
        Err(e) => {
            return Err(e);
        },
    };
    let mut out = "std::collections::HashSet<".to_owned();
    out.append(t.as_str());
    out.append(">");
    proof {
        assert(out@ =~= "std::collections::HashSet<"@
            + (match ty.spec_get("types"@) {
                Some(JsonValue::Array(items)) => spec_decode_type(items@[0], false, false,
                    depth as nat)->Some_0,
                _ => Seq::<char>::empty(),
            }) + ">"@);
    }
    Ok(out)
}

/// Renders the dictionary type of a description.
pub fn decode_dictionary(ty: &JsonValue, depth: u64) -> (r: Result<String, RpcError>)
    ensures
        r matches Ok(s) ==> (match ty.spec_get("types"@) {
            Some(JsonValue::Array(items)) => items@.len() >= 2
                && (spec_decode_type(items@[0], false, false, depth as nat) matches Some(k)
                    && spec_decode_type(items@[1], false, false, depth as nat) matches Some(v)
                    && s@ == "std::collections::HashMap<"@ + k + ", "@ + v + ">"@),
            _ => false,
        }),
        r is Err ==> (match ty.spec_get("types"@) {
            Some(JsonValue::Array(items)) => items@.len() < 2
                || spec_decode_type(items@[0], false, false, depth as nat) is None
                || spec_decode_type(items@[1], false, false, depth as nat) is None,
            _ => true,
        }),
    decreases depth, 2nat, 0nat,
{
    let items = match ty.get("types") {
        Some(v) => match v.as_array() {
            Some(a) => a,
            None => {
                return Err(RpcError::Encoding("malformed type description".to_owned()));
            },
        },
        None => {
            return Err(RpcError::Encoding("malformed type description".to_owned()));
        },
    };
    if items.len() < 2 {
        return Err(RpcError::Encoding("malformed type description".to_owned()));
    }
    let k = match decode_type(&items[0], false, false, depth) {
        Ok(t) => t,
        Err(e) => {
            return Err(e);
        },
    };
    let v = match decode_type(&items[1], false, false, depth) {
        Ok(t) => t,
        Err(e) => {
            return Err(e);
        },
    };
    let mut out = "std::collections::HashMap<".to_owned();
    out.append(k.as_str());
    out.append(", ");
    out.append(v.as_str());
    out.append(">");
    proof {
        assert(out@ =~= "std::collections::HashMap<"@
            + spec_decode_type(items@[0], false, false, depth as nat)->Some_0 + ", "@
            + spec_decode_type(items@[1], false, false, depth as nat)->Some_0 + ">"@);
    }
    Ok(out)
}


/// A keyword-colliding name rewritten to its raw form.
pub open spec fn spec_rewrite(s: Seq<char>) -> Seq<char> {
    if s == "type"@ {
        "r#type"@
    } else {
        s
    }
}

/// The generated name of a parameter: snake-cased and keyword-rewritten.
pub open spec fn spec_param_name(p: JsonValue) -> Option<Seq<char>> {
    match p.spec_get("name"@) {
        Some(JsonValue::Str(s)) => Some(spec_rewrite(snake_of(s@))),
        _ => None,
    }
}

/// The generated name of a parameter.
pub fn get_param_name(param: &JsonValue) -> (r: Result<String, RpcError>)
    ensures
        r matches Ok(s) ==> spec_param_name(*param) == Some(s@),
        r is Err ==> spec_param_name(*param) is None,
{
    let raw = match param.get("name") {
        Some(v) => match v.as_str() {
            Some(s) => s,
            None => {
                return Err(RpcError::Encoding("malformed parameter".to_owned()));
            },
        },
        None => {
            return Err(RpcError::Encoding("malformed parameter".to_owned()));
        },
    };
    Ok(rewrite_keywords(to_snake(raw)))
}

/// The parameter list of a procedure: the parameters declared as
/// arguments, their generated types, and the argument expressions of
/// every parameter. A parameter named `this`, up to ASCII case, binds
/// the receiver: it takes no declared argument, and its argument
/// expression draws on the receiver.
pub struct Parameters {
    pub names: Vec<String>,
    pub types: Vec<String>,
    pub as_args: Vec<String>,
}

/// The names, types and argument expressions of the parameters from
/// position `pos` on.
pub open spec fn spec_params_from(params: Seq<JsonValue>, pos: nat, depth: nat) -> Option<(
    Seq<Seq<char>>,
    Seq<Seq<char>>,
    Seq<Seq<char>>,
)>
    decreases params.len(),
{
    if params.len() == 0 {
        Some((Seq::empty(), Seq::empty(), Seq::empty()))
    } else {
        match spec_param_name(params[0]) {
            None => None,
            Some(name) => if lower_seq(name) == lower_seq("this"@) {
                match spec_params_from(params.drop_first(), pos + 1, depth) {
                    None => None,
                    Some((ns, ts, args)) => Some((
                        ns,
                        ts,
                        seq!["self.to_argument("@ + dec_str(pos) + ")?"@] + args,
                    )),
                }
            } else {
                let nul = match params[0].spec_get("nullable"@) {
                    None => Some(false),
                    Some(JsonValue::Bool(b)) => Some(b),
                    Some(_) => None::<bool>,
                };
                match nul {
                    None => None,
                    Some(nb) => match params[0].spec_get("type"@) {
                        None => None,
                        Some(t) => match spec_decode_type(t, true, nb, depth) {
                            None => None,
                            Some(tt) => match spec_params_from(params.drop_first(), pos + 1,
                                depth) {
                                None => None,
                                Some((ns, ts, args)) => Some((
                                    seq![name] + ns,
                                    seq![tt] + ts,
                                    seq![name + ".to_argument("@ + dec_str(pos) + ")?"@]
                                        + args,
                                )),
                            },
                        },
                    },
                }
            },
        }
    }
}

/// The parameter pieces of a procedure definition.
pub open spec fn spec_parameters(defn: JsonValue, depth: nat) -> Option<(
    Seq<Seq<char>>,
    Seq<Seq<char>>,
    Seq<Seq<char>>,
)> {
    match defn.spec_get("parameters"@) {
        Some(JsonValue::Array(ps)) => spec_params_from(ps@, 0, depth),
        _ => None,
    }
}

impl Parameters {
    /// Reads the parameter list out of a procedure definition.
    pub fn from_json(definition: &JsonValue, depth: u64) -> (r: Result<Parameters, RpcError>)
        ensures
            r matches Ok(p) ==> spec_parameters(*definition, depth as nat)
                == Some((str_views(p.names@), str_views(p.types@), str_views(p.as_args@)))
                && p.names@.len() == p.types@.len(),
            r is Err ==> spec_parameters(*definition, depth as nat) is None,
    {
        let params = match definition.get("parameters") {
            Some(v) => match v.as_array() {
                Some(a) => a,
                None => {
                    return Err(RpcError::Encoding("malformed procedure".to_owned()));
                },
            },
            None => {
                return Err(RpcError::Encoding("malformed procedure".to_owned()));
            },
        };
        let ghost ps = params@;
        let mut names: Vec<String> = Vec::new();
        let mut types: Vec<String> = Vec::new();
        let mut as_args: Vec<String> = Vec::new();
        let mut i: usize = 0;
        proof {
            assert(ps.skip(0) =~= ps);
            lemma_str_views(names@);
            lemma_str_views(types@);
            lemma_str_views(as_args@);
        }
        while i < params.len()
            invariant
                i <= ps.len(),
                ps == params@,
                spec_parameters(*definition, depth as nat)
                    == spec_params_from(ps, 0, depth as nat),
                names@.len() == types@.len(),
                spec_params_from(ps, 0, depth as nat) == (
                    match spec_params_from(ps.skip(i as int), i as nat, depth as nat) {
                        None => None::<(Seq<Seq<char>>, Seq<Seq<char>>, Seq<Seq<char>>)>,
                        Some((ns, ts, args)) => Some((
                            str_views(names@) + ns,
                            str_views(types@) + ts,
                            str_views(as_args@) + args,
                        )),
                    }),
            decreases ps.len() - i,
        {
            proof {
                assert(ps.skip(i as int)[0] == ps[i as int]);
                assert(ps.skip(i as int).drop_first() =~= ps.skip(i + 1));
            }
            let pname = match get_param_name(&params[i]) {
                Ok(n) => n,
                Err(e) => {
                    return Err(e);
                },
            };
            let mut arg: String;
            if eq_ignore_ascii(pname.as_str(), "this") {
                arg = "self.to_argument(".to_owned();
                let num = u64_to_decimal(i as u64);
                arg.append(num.as_str());
                arg.append(")?");
                let ghost old_args = as_args@;
                as_args.push(arg);
                proof {
                    lemma_str_views(old_args);
                    lemma_str_views(as_args@);
                    let selfarg = "self.to_argument("@ + dec_str(i as nat) + ")?"@;
                    assert(str_views(as_args@) =~= str_views(old_args).push(selfarg));
                    let rest = spec_params_from(ps.skip(i + 1), (i + 1) as nat, depth as nat);
                    if rest is Some {
                        let (ns, ts, a) = rest->Some_0;
                        assert(str_views(old_args) + (seq![selfarg] + a)
                            =~= str_views(as_args@) + a);
                    }
                }
            } else {
                let nullable: bool = match params[i].get("nullable") {
                    None => false,
                    Some(v) => match v.as_bool() {
                        Some(b) => b,
                        None => {
                            return Err(RpcError::Encoding("malformed parameter".to_owned()));
                        },
                    },
                };
                let tyv = match params[i].get("type") {
                    Some(t) => t,
                    None => {
                        return Err(RpcError::Encoding("malformed parameter".to_owned()));
                    },
                };
                let tytext = match decode_type(tyv, true, nullable, depth) {
                    Ok(t) => t,
                    Err(e) => {
                        return Err(e);
                    },
                };
                arg = pname.clone();
                arg.append(".to_argument(");
                let num = u64_to_decimal(i as u64);
                arg.append(num.as_str());
                arg.append(")?");
                let ghost old_names = names@;
                let ghost old_types = types@;
                let ghost old_args = as_args@;
                names.push(pname);
                types.push(tytext);
                as_args.push(arg);
                proof {
                    lemma_str_views(old_names);
                    lemma_str_views(names@);
                    lemma_str_views(old_types);
                    lemma_str_views(types@);
                    lemma_str_views(old_args);
                    lemma_str_views(as_args@);
                    let pn = names@[old_names.len() as int]@;
                    let tt = types@[old_types.len() as int]@;
                    let ag = as_args@[old_args.len() as int]@;
                    assert(str_views(names@) =~= str_views(old_names).push(pn));
                    assert(str_views(types@) =~= str_views(old_types).push(tt));
                    assert(str_views(as_args@) =~= str_views(old_args).push(ag));
                    let rest = spec_params_from(ps.skip(i + 1), (i + 1) as nat, depth as nat);
                    if rest is Some {
                        let (ns, ts, a) = rest->Some_0;
                        assert(str_views(old_names) + (seq![pn] + ns)
                            =~= str_views(names@) + ns);
                        assert(str_views(old_types) + (seq![tt] + ts)
                            =~= str_views(types@) + ts);
                        assert(str_views(old_args) + (seq![ag] + a)
                            =~= str_views(as_args@) + a);
                    }
                }
            }
            i = i + 1;
        }
        proof {
            assert(ps.skip(i as int).len() == 0);
            assert(str_views(names@) + Seq::<Seq<char>>::empty() =~= str_views(names@));
            assert(str_views(types@) + Seq::<Seq<char>>::empty() =~= str_views(types@));
            assert(str_views(as_args@) + Seq::<Seq<char>>::empty() =~= str_views(as_args@));
        }
        Ok(Parameters { names, types, as_args })
    }
}


/// The generated return type of a procedure: unit when none is
/// declared, else the mapped type, optional when declared nullable.
pub open spec fn spec_return_type(defn: JsonValue, depth: nat) -> Option<Seq<char>> {
    match defn.spec_get("return_type"@) {
        None => Some("()"@),
        Some(ty) => {
            let nul = match defn.spec_get("return_is_nullable"@) {
                None => Some(false),
                Some(JsonValue::Bool(b)) => Some(b),
                Some(_) => None::<bool>,
            };
            match nul {
                None => None,
                Some(nb) => spec_decode_type(ty, false, nb, depth),
            }
        },
    }
}

/// Renders the generated return type of a procedure.
pub fn get_return_type(definition: &JsonValue, depth: u64) -> (r: Result<String, RpcError>)
    ensures
        r matches Ok(s) ==> spec_return_type(*definition, depth as nat) == Some(s@),
        r is Err ==> spec_return_type(*definition, depth as nat) is None,
{
    let ty = match definition.get("return_type") {
        None => {
            return Ok("()".to_owned());
        },
        Some(t) => t,
    };
    let nullable: bool = match definition.get("return_is_nullable") {
        None => false,
        Some(v) => match v.as_bool() {
            Some(b) => b,
            None => {
                return Err(RpcError::Encoding("malformed procedure".to_owned()));
            },
        },
    };
    decode_type(ty, false, nullable, depth)
}

/// Joins parts with comma-space between them.
pub fn join_comma_exec(parts: &Vec<String>) -> (r: String)
    ensures
        r@ == join_comma(str_views(parts@)),
{
    let ghost pvs = str_views(parts@);
    proof {
        lemma_str_views(parts@);
    }
    let mut out = String::new();
    let mut i: usize = 0;
    proof {
        assert(pvs.take(0) =~= Seq::<Seq<char>>::empty());
        assert(out@ =~= join_comma(pvs.take(0)));
    }
    while i < parts.len()
        invariant
            i <= parts@.len(),
            pvs == str_views(parts@),
            pvs.len() == parts@.len(),
            forall|j: int| 0 <= j < parts@.len() ==> pvs[j] == parts@[j]@,
            out@ == join_comma(pvs.take(i as int)),
        decreases parts@.len() - i,
    {
        if i > 0 {
            out.append(", ");
        }
        out.append(parts[i].as_str());
        proof {
            assert(pvs.take(i + 1) =~= pvs.take(i as int).push(pvs[i as int]));
            lemma_join_comma_snoc(pvs.take(i as int), pvs[i as int]);
            assert(out@ =~= join_comma(pvs.take(i + 1)));
        }
        i = i + 1;
    }
    proof {
        assert(pvs.take(pvs.len() as int) =~= pvs);
    }
    out
}

proof fn lemma_join_comma_snoc(parts: Seq<Seq<char>>, x: Seq<char>)
    ensures
        join_comma(parts.push(x)) == if parts.len() == 0 {
            x
        } else {
            join_comma(parts) + ", "@ + x
        },
    decreases parts.len(),
{
    if parts.len() == 0 {
        assert(parts.push(x)[0] == x);
        assert(join_comma(parts.push(x)) == x);
    } else if parts.len() == 1 {
        assert(parts.push(x)[0] == parts[0]);
        assert(parts.push(x).drop_first() =~= Seq::<Seq<char>>::empty().push(x));
        lemma_join_comma_snoc(Seq::<Seq<char>>::empty(), x);
        assert(join_comma(parts.push(x)) =~= join_comma(parts) + ", "@ + x);
    } else {
        assert(parts.push(x)[0] == parts[0]);
        assert(parts.push(x).drop_first() =~= parts.drop_first().push(x));
        lemma_join_comma_snoc(parts.drop_first(), x);
        assert(join_comma(parts.push(x)) =~= join_comma(parts) + ", "@ + x);
    }
}

/// The declared-argument list of a generated signature: one
/// `, name: Type` for each parameter that takes an argument.
pub open spec fn spec_params_sig(names: Seq<Seq<char>>, types: Seq<Seq<char>>) -> Seq<char>
    decreases names.len(),
{
    if names.len() == 0 || types.len() == 0 {
        Seq::empty()
    } else {
        ", "@ + names[0] + ": "@ + types[0]
            + spec_params_sig(names.drop_first(), types.drop_first())
    }
}

/// Renders the declared-argument list of a generated signature.
pub fn params_sig_exec(names: &Vec<String>, types: &Vec<String>) -> (r: String)
    requires
        names@.len() == types@.len(),
    ensures
        r@ == spec_params_sig(str_views(names@), str_views(types@)),
{
    let ghost nvs = str_views(names@);
    let ghost tvs = str_views(types@);
    proof {
        lemma_str_views(names@);
        lemma_str_views(types@);
    }
    let mut out = String::new();
    let mut i: usize = 0;
    proof {
        assert(spec_params_sig(nvs, tvs)
            == out@ + spec_params_sig(nvs.skip(0), tvs.skip(0))) by {
            assert(nvs.skip(0) =~= nvs);
            assert(tvs.skip(0) =~= tvs);
            assert(out@ + spec_params_sig(nvs, tvs) =~= spec_params_sig(nvs, tvs));
        };
    }
    while i < names.len()
        invariant
            i <= names@.len(),
            names@.len() == types@.len(),
            nvs == str_views(names@),
            tvs == str_views(types@),
            nvs.len() == names@.len() && tvs.len() == types@.len(),
            forall|j: int| 0 <= j < names@.len() ==> nvs[j] == names@[j]@,
            forall|j: int| 0 <= j < types@.len() ==> tvs[j] == types@[j]@,
            spec_params_sig(nvs, tvs) == out@
                + spec_params_sig(nvs.skip(i as int), tvs.skip(i as int)),
        decreases names@.len() - i,
    {
        proof {
            assert(nvs.skip(i as int)[0] == nvs[i as int]);
            assert(tvs.skip(i as int)[0] == tvs[i as int]);
            assert(nvs.skip(i as int).drop_first() =~= nvs.skip(i + 1));
            assert(tvs.skip(i as int).drop_first() =~= tvs.skip(i + 1));
        }
        out.append(", ");
        out.append(names[i].as_str());
        out.append(": ");
        out.append(types[i].as_str());
        proof {
            assert(spec_params_sig(nvs, tvs) =~= out@
                + spec_params_sig(nvs.skip(i + 1), tvs.skip(i + 1)));
        }
        i = i + 1;
    }
    proof {
        assert(nvs.skip(i as int).len() == 0);
        assert(out@ + spec_params_sig(nvs.skip(i as int), tvs.skip(i as int)) =~= out@);
    }
    out
}

/// The receiver class a procedure name infers, if any.
pub open spec fn spec_class_of(name: Seq<char>) -> Option<Seq<char>> {
    let ts = spec_split(name);
    if ts.len() > 1 && starts_upper(ts[0]) {
        Some(ts[0])
    } else {
        None
    }
}

/// The generated function name a procedure name maps to.
pub open spec fn spec_own_name(name: Seq<char>) -> Seq<char> {
    let ts = spec_split(name);
    snake_of(join_underscore(if ts.len() > 1 && starts_upper(ts[0]) {
        ts.drop_first()
    } else {
        ts
    }))
}

/// The generated text of one procedure: an impl block on the receiver —
/// the inferred class, or the service struct — holding the call-builder,
/// the stream-opener and the invoker.
pub open spec fn spec_procedure_text(
    service: Seq<char>,
    proc_name: Seq<char>,
    class_name: Seq<char>,
    fn_name: Seq<char>,
    sig: Seq<char>,
    args: Seq<char>,
    locals: Seq<char>,
    ret: Seq<char>,
) -> Seq<char> {
    "impl "@ + class_name + " {\n    pub(crate) fn "@ + fn_name
        + "_call(&self"@ + sig
        + ") -> Result<crate::schema::ProcedureCall, RpcError> {\n        Ok(crate::client::Client::proc_call(\n            \""@
        + service + "\",\n            \""@ + proc_name + "\",\n            vec!["@ + args
        + "]\n        ))\n    }\n\n    pub fn "@ + fn_name + "_stream(&self"@ + sig
        + ") -> Result<crate::stream::Stream<"@ + ret
        + ">, RpcError> {\n        crate::stream::Stream::new(self.client.clone(), self."@
        + fn_name + "_call("@ + locals + ")?)\n    }\n\n    pub fn "@ + fn_name
        + "(&self"@ + sig + ") -> Result<"@ + ret
        + ", RpcError> {\n        let request = crate::schema::Request::from(self."@
        + fn_name + "_call("@ + locals
        + ")?);\n        let response = self.client.call(request)?;\n        <"@ + ret
        + ">::from_response(response, self.client.clone())\n    }\n}\n\n"@
}

/// The generated text of one procedure definition, or nothing for a
/// malformed one.
pub open spec fn spec_procedure_full(
    name: Seq<char>,
    defn: JsonValue,
    service: Seq<char>,
    qsn: Seq<char>,
    depth: nat,
) -> Option<Seq<char>> {
    match spec_parameters(defn, depth) {
        None => None,
        Some((ns, ts, args)) => match spec_return_type(defn, depth) {
            None => None,
            Some(ret) => Some(spec_procedure_text(
                service,
                name,
                match spec_class_of(name) {
                    Some(c) => c,
                    None => qsn,
                },
                spec_own_name(name),
                spec_params_sig(ns, ts),
                join_comma(args),
                join_comma(ns),
                ret,
            )),
        },
    }
}

/// Renders the generated text of one procedure.
pub fn generate_procedure_definition(
    name: &str,
    definition: &JsonValue,
    service_name: &str,
    q_service_name: &str,
    depth: u64,
) -> (r: Result<String, RpcError>)
    ensures
        r matches Ok(s) ==> spec_procedure_full(name@, *definition, service_name@,
            q_service_name@, depth as nat) == Some(s@),
        r is Err ==> spec_procedure_full(name@, *definition, service_name@,
            q_service_name@, depth as nat) is None,
{
    let tokens = split_name(name);
    proof {
        lemma_str_views(tokens@);
        assert(tokens@[0]@ == spec_split(name@)[0]);
    }
    let class_opt = get_struct(&tokens);
    let fn_name = get_fn_name(&tokens);
    proof {
        let ts = spec_split(name@);
        if tokens@.len() > 1 && starts_upper(tokens@[0]@) {
            assert(own_segments(tokens@) == tokens@.drop_first());
            lemma_str_views(tokens@.drop_first());
            assert(str_views(tokens@.drop_first()) =~= ts.drop_first());
        } else {
            assert(own_segments(tokens@) == tokens@);
        }
        assert(fn_name@ == spec_own_name(name@));
    }
    let class_name: String = match class_opt {
        Some(c) => c,
        None => q_service_name.to_owned(),
    };
    let params = match Parameters::from_json(definition, depth) {
        Ok(p) => p,
        Err(e) => {
            return Err(e);
        },
    };
    let ret = match get_return_type(definition, depth) {
        Ok(t) => t,
        Err(e) => {
            return Err(e);
        },
    };
    proof {
        lemma_str_views(params.names@);
        lemma_str_views(params.types@);
    }
    let sig = params_sig_exec(&params.names, &params.types);
    let args = join_comma_exec(&params.as_args);
    let locals = join_comma_exec(&params.names);
    let mut out = "impl ".to_owned();
    out.append(class_name.as_str());
    out.append(" {\n    pub(crate) fn ");
    out.append(fn_name.as_str());
    out.append("_call(&self");
    out.append(sig.as_str());
    out.append(") -> Result<crate::schema::ProcedureCall, RpcError> {\n        Ok(crate::client::Client::proc_call(\n            \"");
    out.append(service_name);
    out.append("\",\n            \"");
    out.append(name);
    out.append("\",\n            vec![");
    out.append(args.as_str());
    out.append("]\n        ))\n    }\n\n    pub fn ");
    out.append(fn_name.as_str());
    out.append("_stream(&self");
    out.append(sig.as_str());
    out.append(") -> Result<crate::stream::Stream<");
    out.append(ret.as_str());
    out.append(">, RpcError> {\n        crate::stream::Stream::new(self.client.clone(), self.");
    out.append(fn_name.as_str());
    out.append("_call(");
    out.append(locals.as_str());
    out.append(")?)\n    }\n\n    pub fn ");
    out.append(fn_name.as_str());
    out.append("(&self");
    out.append(sig.as_str());
    out.append(") -> Result<");
    out.append(ret.as_str());
    out.append(", RpcError> {\n        let request = crate::schema::Request::from(self.");
    out.append(fn_name.as_str());
    out.append("_call(");
    out.append(locals.as_str());
    out.append(")?);\n        let response = self.client.call(request)?;\n        <");
    out.append(ret.as_str());
    out.append(">::from_response(response, self.client.clone())\n    }\n}\n\n");
    proof {
        assert(out@ =~= spec_procedure_text(service_name@, name@,
            (match spec_class_of(name@) {
                Some(c) => c,
                None => q_service_name@,
            }), spec_own_name(name@),
            spec_params_sig(str_views(params.names@), str_views(params.types@)),
            join_comma(str_views(params.as_args@)), join_comma(str_views(params.names@)),
            ret@));
    }
    Ok(out)
}


/// The generated handle-type lines for a service's classes, in
/// declaration order.
pub open spec fn spec_classes_text(members: Seq<(String, JsonValue)>) -> Seq<char>
    decreases members.len(),
{
    if members.len() == 0 {
        Seq::empty()
    } else {
        "crate::schema::rpc_object!("@ + members[0].0@ + ");\n"@
            + spec_classes_text(members.drop_first())
    }
}

/// Renders the handle-type lines of a service's classes.
pub fn generate_class_definitions(json: &JsonValue) -> (r: Result<String, RpcError>)
    ensures
        r matches Ok(s) ==> (match json.spec_get("classes"@) {
            None => s@ == Seq::<char>::empty(),
            Some(JsonValue::Object(ms)) => s@ == spec_classes_text(ms@),
            Some(_) => false,
        }),
        r is Err ==> (match json.spec_get("classes"@) {
            None => false,
            Some(JsonValue::Object(ms)) => false,
            Some(_) => true,
        }),
{
    let members = match json.get("classes") {
        None => {
            return Ok(String::new());
        },
        Some(v) => match v.as_object() {
            Some(ms) => ms,
            None => {
                return Err(RpcError::Encoding("malformed service".to_owned()));
            },
        },
    };
    let ghost ms = members@;
    let mut out = String::new();
    let mut i: usize = 0;
    proof {
        assert(ms.skip(0) =~= ms);
        assert(out@ + spec_classes_text(ms) =~= spec_classes_text(ms));
    }
    while i < members.len()
        invariant
            i <= ms.len(),
            ms == members@,
            json.spec_get("classes"@) == Some(JsonValue::Object(*members)),
            spec_classes_text(ms) == out@ + spec_classes_text(ms.skip(i as int)),
        decreases ms.len() - i,
    {
        proof {
            assert(ms.skip(i as int)[0] == ms[i as int]);
            assert(ms.skip(i as int).drop_first() =~= ms.skip(i + 1));
        }
        out.append("crate::schema::rpc_object!(");
        out.append(members[i].0.as_str());
        out.append(");\n");
        proof {
            assert(spec_classes_text(ms) =~= out@ + spec_classes_text(ms.skip(i + 1)));
        }
        i = i + 1;
    }
    proof {
        assert(ms.skip(i as int).len() == 0);
        assert(out@ + spec_classes_text(ms.skip(i as int)) =~= out@);
    }
    Ok(out)
}

/// The comma-joined variant names of one enumeration's value list.
pub open spec fn spec_variants_text(values: Seq<JsonValue>) -> Option<Seq<char>>
    decreases values.len(),
{
    if values.len() == 0 {
        Some(Seq::<char>::empty())
    } else {
        match values[0].spec_get("name"@) {
            Some(JsonValue::Str(n)) => match spec_variants_text(values.drop_first()) {
                None => None,
                Some(rest) => Some(if values.len() == 1 {
                    n@
                } else {
                    n@ + ", "@ + rest
                }),
            },
            _ => None,
        }
    }
}

/// Renders the comma-joined variant names of one enumeration, from
/// `from` on.
pub fn generate_enum_variant_definitions(values: &Vec<JsonValue>, from: usize) -> (r: Result<
    String,
    RpcError,
>)
    requires
        from <= values@.len(),
    ensures
        r matches Ok(s) ==> spec_variants_text(values@.skip(from as int)) == Some(s@),
        r is Err ==> spec_variants_text(values@.skip(from as int)) is None,
    decreases values@.len() - from,
{
    let ghost rest = values@.skip(from as int);
    if from == values.len() {
        proof {
            assert(rest.len() == 0);
        }
        return Ok(String::new());
    }
    proof {
        assert(rest[0] == values@[from as int]);
        assert(rest.drop_first() =~= values@.skip(from as int + 1));
    }
    let n = match values[from].get("name") {
        Some(v) => match v.as_str() {
            Some(s) => s,
            None => {
                return Err(RpcError::Encoding("malformed enumeration".to_owned()));
            },
        },
        None => {
            return Err(RpcError::Encoding("malformed enumeration".to_owned()));
        },
    };
    let tail_text = match generate_enum_variant_definitions(values, from + 1) {
        Ok(t) => t,
        Err(e) => {
            return Err(e);
        },
    };
    let mut out = n.to_owned();
    if from + 1 < values.len() {
        out.append(", ");
        out.append(tail_text.as_str());
        proof {
            assert(out@ =~= spec_variants_text(rest)->Some_0);
        }
    } else {
        proof {
            assert(rest.len() == 1);
        }
    }
    Ok(out)
}

/// The generated enumeration lines of a service, in declaration order.
pub open spec fn spec_enums_text(members: Seq<(String, JsonValue)>) -> Option<Seq<char>>
    decreases members.len(),
{
    if members.len() == 0 {
        Some(Seq::<char>::empty())
    } else {
        let vals = match members[0].1.spec_get("values"@) {
            Some(JsonValue::Array(vs)) => spec_variants_text(vs@),
            _ => None,
        };
        match vals {
            None => None,
            Some(variants) => match spec_enums_text(members.drop_first()) {
                None => None,
                Some(rest) => Some("crate::schema::rpc_enum!("@ + members[0].0@ + ", ["@
                    + variants + "]);\n"@ + rest),
            },
        }
    }
}

/// Renders the enumeration lines of a service.
pub fn generate_enum_definitions(json: &JsonValue) -> (r: Result<String, RpcError>)
    ensures
        r matches Ok(s) ==> (match json.spec_get("enumerations"@) {
            None => s@ == Seq::<char>::empty(),
            Some(JsonValue::Object(ms)) => spec_enums_text(ms@) == Some(s@),
            Some(_) => false,
        }),
        r is Err ==> (match json.spec_get("enumerations"@) {
            None => false,
            Some(JsonValue::Object(ms)) => spec_enums_text(ms@) is None,
            Some(_) => true,
        }),
{
    let members = match json.get("enumerations") {
        None => {
            return Ok(String::new());
        },
        Some(v) => match v.as_object() {
            Some(ms) => ms,
            None => {
                return Err(RpcError::Encoding("malformed service".to_owned()));
            },
        },
    };
    let ghost ms = members@;
    let mut out = String::new();
    let mut i: usize = 0;
    proof {
        assert(ms.skip(0) =~= ms);
        if spec_enums_text(ms) is Some {
            assert(out@ + spec_enums_text(ms)->Some_0 =~= spec_enums_text(ms)->Some_0);
        }
    }
    while i < members.len()
        invariant
            i <= ms.len(),
            ms == members@,
            json.spec_get("enumerations"@) == Some(JsonValue::Object(*members)),
            spec_enums_text(ms) == (match spec_enums_text(ms.skip(i as int)) {
                None => None::<Seq<char>>,
                Some(rest) => Some(out@ + rest),
            }),
        decreases ms.len() - i,
    {
        proof {
            assert(ms.skip(i as int)[0] == ms[i as int]);
            assert(ms.skip(i as int).drop_first() =~= ms.skip(i + 1));
        }
        let values = match members[i].1.get("values") {
            Some(v) => match v.as_array() {
                Some(a) => a,
                None => {
                    proof {
                        assert(spec_enums_text(ms.skip(i as int)) is None);
                    }
                    return Err(RpcError::Encoding("malformed enumeration".to_owned()));
                },
            },
            None => {
                proof {
                    assert(spec_enums_text(ms.skip(i as int)) is None);
                }
                return Err(RpcError::Encoding("malformed enumeration".to_owned()));
            },
        };
        proof {
            assert(values@.skip(0) =~= values@);
        }
        let variants = match generate_enum_variant_definitions(values, 0) {
            Ok(t) => t,
            Err(e) => {
                proof {
                    assert(spec_enums_text(ms.skip(i as int)) is None);
                }
                return Err(e);
            },
        };
        let ghost out0 = out@;
        out.append("crate::schema::rpc_enum!(");
        out.append(members[i].0.as_str());
        out.append(", [");
        out.append(variants.as_str());
        out.append("]);\n");
        proof {
            if spec_enums_text(ms.skip(i + 1)) is Some {
                assert(spec_enums_text(ms) == Some(out@
                    + spec_enums_text(ms.skip(i + 1))->Some_0)) by {
                    assert(out@ + spec_enums_text(ms.skip(i + 1))->Some_0
                        =~= out0 + ("crate::schema::rpc_enum!("@ + ms[i as int].0@
                            + ", ["@ + variants@ + "]);\n"@
                            + spec_enums_text(ms.skip(i + 1))->Some_0));
                };
            }
        }
        i = i + 1;
    }
    proof {
        assert(ms.skip(i as int).len() == 0);
        assert(out@ + Seq::<char>::empty() =~= out@);
    }
    Ok(out)
}

/// The generated impl blocks of a service's procedures, in declaration
/// order.
pub open spec fn spec_procedures_text(
    members: Seq<(String, JsonValue)>,
    service: Seq<char>,
    qsn: Seq<char>,
    depth: nat,
) -> Option<Seq<char>>
    decreases members.len(),
{
    if members.len() == 0 {
        Some(Seq::<char>::empty())
    } else {
        match spec_procedure_full(members[0].0@, members[0].1, service, qsn, depth) {
            None => None,
            Some(t) => match spec_procedures_text(members.drop_first(), service, qsn, depth) {
                None => None,
                Some(rest) => Some(t + rest),
            },
        }
    }
}

/// Renders the impl blocks of a service's procedures.
#[verifier::rlimit(60)]
pub fn generate_procedure_definitions(
    json: &JsonValue,
    service_name: &str,
    q_service_name: &str,
    depth: u64,
) -> (r: Result<String, RpcError>)
    ensures
        r matches Ok(s) ==> (match json.spec_get("procedures"@) {
            None => s@ == Seq::<char>::empty(),
            Some(JsonValue::Object(ms)) => spec_procedures_text(ms@, service_name@,
                q_service_name@, depth as nat) == Some(s@),
            Some(_) => false,
        }),
        r is Err ==> (match json.spec_get("procedures"@) {
            None => false,
            Some(JsonValue::Object(ms)) => spec_procedures_text(ms@, service_name@,
                q_service_name@, depth as nat) is None,
            Some(_) => true,
        }),
{
    let members = match json.get("procedures") {
        None => {
            return Ok(String::new());
        },
        Some(v) => match v.as_object() {
            Some(ms) => ms,
            None => {
                return Err(RpcError::Encoding("malformed service".to_owned()));
            },
        },
    };
    let ghost ms = members@;
    let mut out = String::new();
    let mut i: usize = 0;
    proof {
        assert(ms.skip(0) =~= ms);
        if spec_procedures_text(ms, service_name@, q_service_name@, depth as nat) is Some {
            assert(out@ + spec_procedures_text(ms, service_name@, q_service_name@,
                depth as nat)->Some_0
                =~= spec_procedures_text(ms, service_name@, q_service_name@,
                    depth as nat)->Some_0);
        }
    }
    while i < members.len()
        invariant
            i <= ms.len(),
            ms == members@,
            json.spec_get("procedures"@) == Some(JsonValue::Object(*members)),
            spec_procedures_text(ms, service_name@, q_service_name@, depth as nat)
                == (match spec_procedures_text(ms.skip(i as int), service_name@,
                    q_service_name@, depth as nat) {
                    None => None::<Seq<char>>,
                    Some(rest) => Some(out@ + rest),
                }),
        decreases ms.len() - i,
    {
        proof {
            assert(ms.skip(i as int)[0] == ms[i as int]);
            assert(ms.skip(i as int).drop_first() =~= ms.skip(i + 1));
        }
        let text = match generate_procedure_definition(members[i].0.as_str(), &members[i].1,
            service_name, q_service_name, depth) {
            Ok(t) => t,
            Err(e) => {
                proof {
                    assert(spec_procedures_text(ms.skip(i as int), service_name@,
                        q_service_name@, depth as nat) is None);
                }
                return Err(e);
            },
        };
        let ghost out0 = out@;
        out.append(text.as_str());
        proof {
            if spec_procedures_text(ms.skip(i + 1), service_name@, q_service_name@,
                depth as nat) is Some {
                assert(out@ + spec_procedures_text(ms.skip(i + 1), service_name@,
                    q_service_name@, depth as nat)->Some_0
                    =~= out0 + (text@ + spec_procedures_text(ms.skip(i + 1),
                        service_name@, q_service_name@, depth as nat)->Some_0));
            }
        }
        i = i + 1;
    }
    proof {
        assert(ms.skip(i as int).len() == 0);
        assert(out@ + Seq::<char>::empty() =~= out@);
    }
    Ok(out)
}

/// The generated text of one service module: the module header, the
/// service struct with its constructor, then the classes, enumerations
/// and procedures.
pub open spec fn spec_module_text(
    service: Seq<char>,
    defn: JsonValue,
    depth: nat,
) -> Option<Seq<char>> {
    let classes = match defn.spec_get("classes"@) {
        None => Some(Seq::<char>::empty()),
        Some(JsonValue::Object(ms)) => Some(spec_classes_text(ms@)),
        Some(_) => None,
    };
    let enums = match defn.spec_get("enumerations"@) {
        None => Some(Seq::<char>::empty()),
        Some(JsonValue::Object(ms)) => spec_enums_text(ms@),
        Some(_) => None,
    };
    let procs = match defn.spec_get("procedures"@) {
        None => Some(Seq::<char>::empty()),
        Some(JsonValue::Object(ms)) => spec_procedures_text(ms@, service, service, depth),
        Some(_) => None,
    };
    match classes {
        None => None,
        Some(ct) => match enums {
            None => None,
            Some(et) => match procs {
                None => None,
                Some(pt) => Some(
                    "#[allow(clippy::type_complexity)]\npub mod "@ + snake_of(service)
                        + " {\nuse crate::{\n    schema::{ToArgument, FromResponse},\n    error::RpcError,\n};\n\n#[derive(Clone)]\npub struct "@
                        + service
                        + " {\n    pub client: ::std::sync::Arc<crate::client::Client>,\n}\n\nimpl "@
                        + service
                        + " {\n    pub fn new(client: ::std::sync::Arc<crate::client::Client>) -> Self {\n        Self { client }\n    }\n}\n\n"@
                        + ct + et + pt + "}\n"@),
            },
        },
    }
}

/// Renders the generated module of one service.
pub fn generate_module_definition(
    service_name: &str,
    service_definition: &JsonValue,
    depth: u64,
) -> (r: Result<String, RpcError>)
    ensures
        r matches Ok(s) ==> spec_module_text(service_name@, *service_definition,
            depth as nat) == Some(s@),
        r is Err ==> spec_module_text(service_name@, *service_definition, depth as nat)
            is None,
{
    let classes = match generate_class_definitions(service_definition) {
        Ok(t) => t,
        Err(e) => {
            return Err(e);
        },
    };
    let enums = match generate_enum_definitions(service_definition) {
        Ok(t) => t,
        Err(e) => {
            return Err(e);
        },
    };
    let procs = match generate_procedure_definitions(service_definition, service_name,
        service_name, depth) {
        Ok(t) => t,
        Err(e) => {
            return Err(e);
        },
    };
    let mut out = "#[allow(clippy::type_complexity)]\npub mod ".to_owned();
    let snake = to_snake(service_name);
    out.append(snake.as_str());
    out.append(" {\nuse crate::{\n    schema::{ToArgument, FromResponse},\n    error::RpcError,\n};\n\n#[derive(Clone)]\npub struct ");
    out.append(service_name);
    out.append(" {\n    pub client: ::std::sync::Arc<crate::client::Client>,\n}\n\nimpl ");
    out.append(service_name);
    out.append(" {\n    pub fn new(client: ::std::sync::Arc<crate::client::Client>) -> Self {\n        Self { client }\n    }\n}\n\n");
    out.append(classes.as_str());
    out.append(enums.as_str());
    out.append(procs.as_str());
    out.append("}\n");
    proof {
        assert(out@ =~= spec_module_text(service_name@, *service_definition,
            depth as nat)->Some_0);
    }
    Ok(out)
}

/// The generated modules of a whole catalogue object, one per service,
/// in declaration order.
pub open spec fn spec_services_text(
    members: Seq<(String, JsonValue)>,
    depth: nat,
) -> Option<Seq<char>>
    decreases members.len(),
{
    if members.len() == 0 {
        Some(Seq::<char>::empty())
    } else {
        match spec_module_text(members[0].0@, members[0].1, depth) {
            None => None,
            Some(t) => match spec_services_text(members.drop_first(), depth) {
                None => None,
                Some(rest) => Some(t + rest),
            },
        }
    }
}

/// Renders the generated modules of a parsed catalogue: the top-level
/// object maps service names to their definitions.
pub fn generate_services(catalog: &JsonValue, depth: u64) -> (r: Result<String, RpcError>)
    ensures
        r matches Ok(s) ==> (match *catalog {
            JsonValue::Object(ms) => spec_services_text(ms@, depth as nat) == Some(s@),
            _ => false,
        }),
        r is Err ==> (match *catalog {
            JsonValue::Object(ms) => spec_services_text(ms@, depth as nat) is None,
            _ => true,
        }),
{
    let members = match catalog.as_object() {
        Some(ms) => ms,
        None => {
            return Err(RpcError::Encoding("malformed catalogue".to_owned()));
        },
    };
    let ghost ms = members@;
    let mut out = String::new();
    let mut i: usize = 0;
    proof {
        assert(ms.skip(0) =~= ms);
        if spec_services_text(ms, depth as nat) is Some {
            assert(out@ + spec_services_text(ms, depth as nat)->Some_0
                =~= spec_services_text(ms, depth as nat)->Some_0);
        }
    }
    while i < members.len()
        invariant
            i <= ms.len(),
            ms == members@,
            *catalog == JsonValue::Object(*members),
            spec_services_text(ms, depth as nat)
                == (match spec_services_text(ms.skip(i as int), depth as nat) {
                    None => None::<Seq<char>>,
                    Some(rest) => Some(out@ + rest),
                }),
        decreases ms.len() - i,
    {
        proof {
            assert(ms.skip(i as int)[0] == ms[i as int]);
            assert(ms.skip(i as int).drop_first() =~= ms.skip(i + 1));
        }
        let text = match generate_module_definition(members[i].0.as_str(), &members[i].1,
            depth) {
            Ok(t) => t,
            Err(e) => {
                proof {
                    assert(spec_services_text(ms.skip(i as int), depth as nat) is None);
                }
                return Err(e);
            },
        };
        let ghost out0 = out@;
        out.append(text.as_str());
        proof {
            if spec_services_text(ms.skip(i + 1), depth as nat) is Some {
                assert(out@ + spec_services_text(ms.skip(i + 1), depth as nat)->Some_0
                    =~= out0 + (text@
                        + spec_services_text(ms.skip(i + 1), depth as nat)->Some_0));
            }
        }
        i = i + 1;
    }
    proof {
        assert(ms.skip(i as int).len() == 0);
        assert(out@ + Seq::<char>::empty() =~= out@);
    }
    Ok(out)
}

} // verus!