//! The vocabulary of pipelines: the value types commands take and return
//! (`path`, `[string]`, `{bytes}`, ..), errors with the place in the
//! pipeline files they refer to, and the asset names a command asks for.
use vstd::prelude::*;
use crate::text::{chars_of, join_by, push_char, push_str, str_eq, string_of, strings_view};

verus! {

broadcast use vstd::string::group_string_axioms;

/// A value type of a command's input, output or argument.
#[derive(Debug)]
pub enum Ty {
    Path,
    String,
    Json,
    Bytes,
    Int,
    ArrayString,
    ArrayBytes,
    MapPath,
    MapString,
    MapBytes,
    /// A struct type, by name.
    Struct(String),
    /// Any of several types.
    Union(Vec<Ty>),
}

/// The name of a type in pipeline definitions: `path`, `[string]`,
/// `{bytes}`, a struct's name, or the alternatives of a union joined by
/// ` | `.
pub open spec fn dr_type(t: Ty) -> Seq<char>
    decreases t, 1nat,
{
    match t {
        Ty::Path => "path"@,
        Ty::String => "string"@,
        Ty::Json => "json"@,
        Ty::Bytes => "bytes"@,
        Ty::Int => "int"@,
        Ty::ArrayString => "[string]"@,
        Ty::ArrayBytes => "[bytes]"@,
        Ty::MapPath => "{path}"@,
        Ty::MapString => "{string}"@,
        Ty::MapBytes => "{bytes}"@,
        Ty::Struct(name) => name@,
        Ty::Union(ts) => {
            proof {
                assert(decreases_to!(t => ts));
                assert(decreases_to!(ts => ts@));
            }
            dr_union(ts@, ts@.len())
        },
    }
}

/// The names of the first `n` types of `ts`, joined by ` | `.
pub open spec fn dr_union(ts: Seq<Ty>, n: nat) -> Seq<char>
    decreases ts, n,
{
    if n == 0 || n > ts.len() {
        Seq::empty()
    } else if n == 1 {
        dr_type(ts[0])
    } else {
        dr_union(ts, (n - 1) as nat) + " | "@ + dr_type(ts[n - 1])
    }
}

/// The number of type nodes in `t`.
pub open spec fn ty_size(t: Ty) -> nat
    decreases t, 1nat,
{
    match t {
        Ty::Union(ts) => {
            proof {
                assert(decreases_to!(t => ts));
                assert(decreases_to!(ts => ts@));
            }
            1 + sizes(ts@, ts@.len())
        },
        _ => 1,
    }
}

pub open spec fn sizes(ts: Seq<Ty>, n: nat) -> nat
    decreases ts, n,
{
    if n == 0 || n > ts.len() {
        0
    } else {
        sizes(ts, (n - 1) as nat) + ty_size(ts[n - 1])
    }
}

pub proof fn lemma_sizes(ts: Seq<Ty>, n: nat, i: int)
    requires
        0 <= i < n <= ts.len(),
    ensures
        ty_size(ts[i]) <= sizes(ts, n),
    decreases n,
{
    if i < n - 1 {
        lemma_sizes(ts, (n - 1) as nat, i);
    }
}

/// A type with a fixed name (neither a struct nor a union).
pub open spec fn is_simple(t: Ty) -> bool {
    !(t is Struct) && !(t is Union)
}

/// The type a name stands for: `[string]`, `[bytes]`, `{path}`,
/// `{string}`, `{bytes}` or a plain name.
pub open spec fn parse_ty(s: Seq<char>) -> Option<Ty>
    decreases s.len(),
{
    if s.len() >= 2 && s[0] == '[' && s.last() == ']' {
        match parse_ty(s.subrange(1, s.len() - 1)) {
            Some(Ty::String) => Some(Ty::ArrayString),
            Some(Ty::Bytes) => Some(Ty::ArrayBytes),
            _ => None,
        }
    } else if s.len() >= 2 && s[0] == '{' && s.last() == '}' {
        match parse_ty(s.subrange(1, s.len() - 1)) {
            Some(Ty::Path) => Some(Ty::MapPath),
            Some(Ty::String) => Some(Ty::MapString),
            Some(Ty::Bytes) => Some(Ty::MapBytes),
            _ => None,
        }
    } else if s == "path"@ {
        Some(Ty::Path)
    } else if s == "string"@ {
        Some(Ty::String)
    } else if s == "json"@ {
        Some(Ty::Json)
    } else if s == "bytes"@ {
        Some(Ty::Bytes)
    } else if s == "int"@ {
        Some(Ty::Int)
    } else {
        None
    }
}

fn base_ty(s: &str) -> (r: Option<Ty>)
    ensures
        r == (if s@ == "path"@ {
            Some(Ty::Path)
        } else if s@ == "string"@ {
            Some(Ty::String)
        } else if s@ == "json"@ {
            Some(Ty::Json)
        } else if s@ == "bytes"@ {
            Some(Ty::Bytes)
        } else if s@ == "int"@ {
            Some(Ty::Int)
        } else {
            None
        }),
{
    if str_eq(s, "path") {
        Some(Ty::Path)
    } else if str_eq(s, "string") {
        Some(Ty::String)
    } else if str_eq(s, "json") {
        Some(Ty::Json)
    } else if str_eq(s, "bytes") {
        Some(Ty::Bytes)
    } else if str_eq(s, "int") {
        Some(Ty::Int)
    } else {
        None
    }
}

impl Ty {
    /// Parses a type name; `Err(())` for a name that is no type.
    pub fn from_str(s: &str) -> (r: Result<Ty, ()>)
        ensures
            match parse_ty(s@) {
                Some(t) => r == Ok::<Ty, ()>(t),
                None => r is Err,
            },
        decreases s@.len(),
    {
        let v = chars_of(s);
        let n = v.len();
        if n >= 2 && v[0] == '[' && v[n - 1] == ']' {
            let inner = string_of(&v, 1, n - 1);
            return match Ty::from_str(inner.as_str()) {
                Ok(Ty::String) => Ok(Ty::ArrayString),
                Ok(Ty::Bytes) => Ok(Ty::ArrayBytes),
                _ => Err(()),
            };
        }
        if n >= 2 && v[0] == '{' && v[n - 1] == '}' {
            let inner = string_of(&v, 1, n - 1);
            return match Ty::from_str(inner.as_str()) {
                Ok(Ty::Path) => Ok(Ty::MapPath),
                Ok(Ty::String) => Ok(Ty::MapString),
                Ok(Ty::Bytes) => Ok(Ty::MapBytes),
                _ => Err(()),
            };
        }
        match base_ty(s) {
            Some(t) => Ok(t),
            None => Err(()),
        }
    }

    /// The type's name in pipeline definitions.
    pub fn as_dr_type(&self) -> (s: String)
        ensures
            s@ == dr_type(*self),
        decreases ty_size(*self),
    {
        match self {
            Ty::Path => "path".to_string(),
            Ty::String => "string".to_string(),
            Ty::Json => "json".to_string(),
            Ty::Bytes => "bytes".to_string(),
            Ty::Int => "int".to_string(),
            Ty::ArrayString => "[string]".to_string(),
            Ty::ArrayBytes => "[bytes]".to_string(),
            Ty::MapPath => "{path}".to_string(),
            Ty::MapString => "{string}".to_string(),
            Ty::MapBytes => "{bytes}".to_string(),
            Ty::Struct(name) => name.clone(),
            Ty::Union(types) => {
                let mut out = String::new();
                let mut i: usize = 0;
                while i < types.len()
                    invariant
                        i <= types@.len(),
                        *self == Ty::Union(*types),
                        out@ == dr_union(types@, i as nat),
                    decreases types@.len() - i,
                {
                    proof {
                        lemma_sizes(types@, types@.len(), i as int);
                    }
                    let name = types[i].as_dr_type();
                    if i > 0 {
                        push_str(&mut out, " | ");
                    }
                    push_str(&mut out, name.as_str());
                    i = i + 1;
                }
                out
            },
        }
    }
}

/// The name of a fixed-name type reads back as that type.
pub proof fn lemma_ty_round_trip(t: Ty)
    requires
        is_simple(t),
    ensures
        parse_ty(dr_type(t)) == Some(t),
{
    reveal_strlit("path");
    reveal_strlit("string");
    reveal_strlit("json");
    reveal_strlit("bytes");
    reveal_strlit("int");
    reveal_strlit("[string]");
    reveal_strlit("[bytes]");
    reveal_strlit("{path}");
    reveal_strlit("{string}");
    reveal_strlit("{bytes}");
    assert(parse_ty("string"@) == Some(Ty::String));
    assert(parse_ty("bytes"@) == Some(Ty::Bytes));
    assert(parse_ty("path"@) == Some(Ty::Path));
    match t {
        Ty::ArrayString => {
            assert("[string]"@.subrange(1, 7) =~= "string"@);
            assert(parse_ty("[string]"@) == Some(Ty::ArrayString));
        },
        Ty::ArrayBytes => {
            assert("[bytes]"@.subrange(1, 6) =~= "bytes"@);
            assert(parse_ty("[bytes]"@) == Some(Ty::ArrayBytes));
        },
        Ty::MapPath => {
            assert("{path}"@.subrange(1, 5) =~= "path"@);
            assert(parse_ty("{path}"@) == Some(Ty::MapPath));
        },
        Ty::MapString => {
            assert("{string}"@.subrange(1, 7) =~= "string"@);
            assert(parse_ty("{string}"@) == Some(Ty::MapString));
        },
        Ty::MapBytes => {
            assert("{bytes}"@.subrange(1, 6) =~= "bytes"@);
            assert(parse_ty("{bytes}"@) == Some(Ty::MapBytes));
        },
        _ => {},
    }
}

/// A name that reads as a type is that type's name: no two names read as
/// one type.
pub proof fn lemma_ty_name_unique(s: Seq<char>)
    ensures
        parse_ty(s) matches Some(t) ==> dr_type(t) == s,
    decreases s.len(),
{
    reveal_strlit("path");
    reveal_strlit("string");
    reveal_strlit("json");
    reveal_strlit("bytes");
    reveal_strlit("int");
    reveal_strlit("[string]");
    reveal_strlit("[bytes]");
    reveal_strlit("{path}");
    reveal_strlit("{string}");
    reveal_strlit("{bytes}");
    if s.len() >= 2 && (s[0] == '[' && s.last() == ']' || s[0] == '{' && s.last() == '}') {
        let inner = s.subrange(1, s.len() - 1);
        lemma_ty_name_unique(inner);
        let w = seq![s[0]] + inner + seq![s.last()];
        assert(w =~= s);
        match parse_ty(inner) {
            Some(Ty::String) => {
                assert(inner == "string"@);
                if s[0] == '[' {
                    assert(s =~= "[string]"@);
                } else {
                    assert(s =~= "{string}"@);
                }
            },
            Some(Ty::Bytes) => {
                assert(inner == "bytes"@);
                if s[0] == '[' {
                    assert(s =~= "[bytes]"@);
                } else {
                    assert(s =~= "{bytes}"@);
                }
            },
            Some(Ty::Path) => {
                assert(inner == "path"@);
                if s[0] == '{' {
                    assert(s =~= "{path}"@);
                }
            },
            _ => {},
        }
    }
}

/// Matches a file name against a pattern with at most one `*` (such as
/// `errors-*.ftl`): the text must start with what precedes the first `*` and
/// end with what follows it; without `*`, equal the pattern.
pub open spec fn glob_matches(pattern: Seq<char>, text: Seq<char>) -> bool {
    match crate::speech::first_of(pattern, '*') {
        Some(i) => {
            let prefix = pattern.take(i);
            let suffix = pattern.skip(i + 1);
            text.len() >= prefix.len() && text.take(prefix.len() as int) == prefix && text.len()
                >= suffix.len() && text.skip(text.len() - suffix.len()) == suffix
        },
        None => pattern == text,
    }
}

/// Matches a file name against a pattern such as `errors-*.ftl`.
pub fn glob_match(pattern: &str, text: &str) -> (r: bool)
    ensures
        r == glob_matches(pattern@, text@),
{
    let p = chars_of(pattern);
    let t = chars_of(text);
    let mut star: usize = 0;
    while star < p.len() && p[star] != '*'
        invariant
            star <= p@.len(),
            forall|k: int| 0 <= k < star ==> p@[k] != '*',
        decreases p@.len() - star,
    {
        star = star + 1;
    }
    proof {
        lemma_first_of_prefix(p@, '*', star as int);
    }
    if star == p.len() {
        return str_eq(pattern, text);
    }
    let suffix_len = p.len() - star - 1;
    if t.len() < star || t.len() < suffix_len {
        return false;
    }
    let mut k: usize = 0;
    while k < star
        invariant
            k <= star < p@.len(),
            star <= t@.len(),
            p@ == pattern@,
            t@ == text@,
            crate::speech::first_of(p@, '*') == Some(star as int),
            forall|j: int| 0 <= j < k ==> t@[j] == p@[j],
        decreases star - k,
    {
        if t[k] != p[k] {
            assert(t@.take(star as int)[k as int] != p@.take(star as int)[k as int]);
            return false;
        }
        k = k + 1;
    }
    assert(t@.take(star as int) =~= p@.take(star as int));
    let off = t.len() - suffix_len;
    let mut k: usize = 0;
    while k < suffix_len
        invariant
            k <= suffix_len,
            suffix_len + star + 1 == p.len(),
            off + suffix_len == t.len(),
            p@ == pattern@,
            t@ == text@,
            crate::speech::first_of(p@, '*') == Some(star as int),
            t@.take(star as int) == p@.take(star as int),
            forall|j: int| 0 <= j < k ==> #[trigger] t@.skip(off as int)[j] == p@.skip(star + 1)[j],
        decreases suffix_len - k,
    {
        if t[off + k] != p[star + 1 + k] {
            assert(t@.skip(off as int)[k as int] != p@.skip(star + 1)[k as int]);
            return false;
        }
        k = k + 1;
    }
    assert(t@.skip(off as int) =~= p@.skip(star + 1));
    true
}

proof fn lemma_first_of_prefix(s: Seq<char>, c: char, n: int)
    requires
        0 <= n <= s.len(),
        forall|k: int| 0 <= k < n ==> s[k] != c,
        n < s.len() ==> s[n] == c,
    ensures
        n < s.len() ==> crate::speech::first_of(s, c) == Some(n),
        n == s.len() ==> crate::speech::first_of(s, c) is None,
    decreases n,
{
    if n > 0 {
        lemma_first_of_prefix(s.drop_first(), c, n - 1);
    } else if s.len() > 0 {
    }
}

/// An asset a command asks for: a file or a pattern of files, required or
/// optional.
#[derive(Debug)]
pub enum AssetDep {
    Required(String),
    RequiredRegex(String),
    Optional(String),
    OptionalRegex(String),
}

/// A field of a struct type: its name, its type and whether it may be left
/// out.
#[derive(Debug)]
pub struct StructField {
    pub name: String,
    pub ty: String,
    pub optional: bool,
}

/// What a tap decides about the value it saw: let it on, or stop the
/// emission.
#[derive(Debug, PartialEq, Eq, Structural, Clone, Copy)]
pub enum TapOutput {
    Continue,
    Stop,
}

impl Default for TapOutput {
    fn default() -> (t: TapOutput)
        ensures
            t == TapOutput::Continue,
    {
        TapOutput::Continue
    }
}

/// A word and its half-open sample range in an audio buffer.
#[derive(Debug)]
pub struct AudioWordTiming {
    pub word: String,
    pub start_sample: usize,
    pub end_sample: usize,
}

/// Where in the pipeline files an error lies: the file, and a JSON path in
/// it.
#[derive(Debug)]
pub struct ErrorLocation {
    pub file: String,
    pub path: String,
}

/// How a location follows an error's message: nothing when there is none,
/// ` at file`, or ` at file:path`.
pub open spec fn location_text(file: Seq<char>, path: Seq<char>) -> Seq<char> {
    if file.len() == 0 && path.len() == 0 {
        Seq::empty()
    } else if path.len() == 0 {
        " at "@ + file
    } else {
        " at "@ + file + ":"@ + path
    }
}

impl ErrorLocation {
    /// No location.
    pub fn new() -> (l: ErrorLocation)
        ensures
            l.file@.len() == 0,
            l.path@.len() == 0,
    {
        ErrorLocation { file: String::new(), path: String::new() }
    }

    /// The location as it follows an error's message.
    pub fn to_string(&self) -> (s: String)
        ensures
            s@ == location_text(self.file@, self.path@),
    {
        let mut s = String::new();
        if self.file.as_str().is_empty() && self.path.as_str().is_empty() {
            return s;
        }
        push_str(&mut s, " at ");
        push_str(&mut s, self.file.as_str());
        if !self.path.as_str().is_empty() {
            push_str(&mut s, ":");
            push_str(&mut s, self.path.as_str());
        }
        s
    }
}

/// What an error holds: a message, or the message of an error it wraps.
#[derive(Debug)]
pub enum ErrorKind {
    Msg(String),
    Wrapped(String),
}

/// A diagnostic error with the place in the pipeline files it refers to.
#[derive(Debug)]
pub struct Error {
    pub kind: ErrorKind,
    pub location: ErrorLocation,
}

/// The help line of an error: where it lies, if it lies anywhere.
pub open spec fn help_text(file: Seq<char>, path: Seq<char>) -> Option<Seq<char>> {
    if file.len() == 0 && path.len() == 0 {
        None
    } else if path.len() == 0 {
        Some("at "@ + file)
    } else {
        Some("at "@ + file + ":"@ + path)
    }
}

impl Error {
    /// An error with a message and no location.
    pub fn msg(msg: &str) -> (e: Error)
        ensures
            e.kind == ErrorKind::Msg(e.kind->Msg_0) && e.kind->Msg_0@ == msg@,
            e.location.file@.len() == 0,
            e.location.path@.len() == 0,
    {
        Error { kind: ErrorKind::Msg(msg.to_string()), location: ErrorLocation::new() }
    }

    /// The error, located in `file`.
    pub fn at_file(self, file: &str) -> (e: Error)
        ensures
            e.kind == self.kind,
            e.location.file@ == file@,
            e.location.path == self.location.path,
    {
        let mut e = self;
        e.location.file = file.to_string();
        e
    }

    /// The error, located at a JSON path.
    pub fn at_path(self, path: &str) -> (e: Error)
        ensures
            e.kind == self.kind,
            e.location.file == self.location.file,
            e.location.path@ == path@,
    {
        let mut e = self;
        e.location.path = path.to_string();
        e
    }

    /// The error, located at a JSON path of a file.
    pub fn at(self, file: &str, path: &str) -> (e: Error)
        ensures
            e.kind == self.kind,
            e.location.file@ == file@,
            e.location.path@ == path@,
    {
        let mut e = self;
        e.location.file = file.to_string();
        e.location.path = path.to_string();
        e
    }

    /// The error's message.
    pub fn message(&self) -> (s: String)
        ensures
            s@ == match self.kind {
                ErrorKind::Msg(m) => m@,
                ErrorKind::Wrapped(m) => m@,
            },
    {
        match &self.kind {
            ErrorKind::Msg(m) => m.clone(),
            ErrorKind::Wrapped(m) => m.clone(),
        }
    }

    /// Where the error lies, as a help line; `None` without a location.
    pub fn help(&self) -> (h: Option<String>)
        ensures
            match help_text(self.location.file@, self.location.path@) {
                Some(t) => h matches Some(s) && s@ == t,
                None => h is None,
            },
    {
        if self.location.file.as_str().is_empty() && self.location.path.as_str().is_empty() {
            return None;
        }
        let mut s = String::new();
        push_str(&mut s, "at ");
        push_str(&mut s, self.location.file.as_str());
        if !self.location.path.as_str().is_empty() {
            push_str(&mut s, ":");
            push_str(&mut s, self.location.path.as_str());
        }
        Some(s)
    }
}

} // verus!
