//! TypeScript bindings for the commands of a module: an interface for each
//! struct type of the module, an options interface for each command with
//! arguments, and for each command its overloads and its implementation,
//! which builds the command's description.
use vstd::prelude::*;
use crate::pipeline::{dr_type, dr_union, lemma_sizes, sizes, ty_size, StructField, Ty};
use crate::text::{chars_of, push_str, str_eq, string_of, strings_view};
use crate::unicode::{char_to_uppercase, char_uppercased};

verus! {

broadcast use vstd::string::group_string_axioms;

/// An argument of a command: its name, type and whether it may be left out.
#[derive(Debug)]
pub struct Arg {
    pub name: String,
    pub ty: Ty,
    pub optional: bool,
}

/// What a binding needs of a command: its name, arguments, return type,
/// kind and the JSON schema of what it returns.
#[derive(Debug)]
pub struct CommandDef {
    pub name: String,
    pub args: Vec<Arg>,
    pub returns: Ty,
    pub kind: Option<String>,
    pub schema: Option<String>,
}

/// A module of commands.
#[derive(Debug)]
pub struct Module {
    pub name: String,
    pub commands: Vec<CommandDef>,
}

/// A struct type and the module it belongs to.
#[derive(Debug)]
pub struct StructDef {
    pub name: String,
    pub module: String,
    pub fields: Vec<StructField>,
}

/// The TypeScript type of a value type; a JSON value has the schema's type
/// where one is given.
pub open spec fn ts_type(t: Ty, schema: Option<Seq<char>>) -> Seq<char>
    decreases t, 1nat,
{
    match t {
        Ty::Path => "string"@,
        Ty::String => "string"@,
        Ty::Json => match schema {
            Some(s) => s,
            None => "any"@,
        },
        Ty::Bytes => "Uint8Array"@,
        Ty::Int => "number"@,
        Ty::ArrayString => "string[]"@,
        Ty::ArrayBytes => "Uint8Array[]"@,
        Ty::MapPath => "Record<string, string>"@,
        Ty::MapString => "Record<string, string>"@,
        Ty::MapBytes => "Record<string, Uint8Array>"@,
        Ty::Struct(name) => name@,
        Ty::Union(ts) => {
            proof {
                assert(decreases_to!(t => ts));
                assert(decreases_to!(ts => ts@));
            }
            ts_union(ts@, ts@.len())
        },
    }
}

/// The TypeScript types of the first `n` types of `ts`, joined by ` | `.
pub open spec fn ts_union(ts: Seq<Ty>, n: nat) -> Seq<char>
    decreases ts, n,
{
    if n == 0 || n > ts.len() {
        Seq::empty()
    } else if n == 1 {
        ts_type(ts[0], None)
    } else {
        ts_union(ts, (n - 1) as nat) + " | "@ + ts_type(ts[n - 1], None)
    }
}

pub open spec fn opt_str(o: Option<String>) -> Option<Seq<char>> {
    match o {
        Some(s) => Some(s@),
        None => None,
    }
}

impl Ty {
    /// The TypeScript type of the value type, with the schema's type for a
    /// JSON value where one is given.
    pub fn as_ts_type_with_schema(&self, schema: Option<&str>) -> (s: String)
        ensures
            s@ == ts_type(
                *self,
                match schema {
                    Some(x) => Some(x@),
                    None => None,
                },
            ),
        decreases ty_size(*self), 1nat,
    {
        match self {
            Ty::Path => "string".to_string(),
            Ty::String => "string".to_string(),
            Ty::Json => match schema {
                Some(s) => s.to_string(),
                None => "any".to_string(),
            },
            Ty::Bytes => "Uint8Array".to_string(),
            Ty::Int => "number".to_string(),
            Ty::ArrayString => "string[]".to_string(),
            Ty::ArrayBytes => "Uint8Array[]".to_string(),
            Ty::MapPath => "Record<string, string>".to_string(),
            Ty::MapString => "Record<string, string>".to_string(),
            Ty::MapBytes => "Record<string, Uint8Array>".to_string(),
            Ty::Struct(name) => name.clone(),
            Ty::Union(types) => {
                let mut out = String::new();
                let mut i: usize = 0;
                while i < types.len()
                    invariant
                        i <= types@.len(),
                        *self == Ty::Union(*types),
                        out@ == ts_union(types@, i as nat),
                    decreases types@.len() - i,
                {
                    proof {
                        lemma_sizes(types@, types@.len(), i as int);
                    }
                    let name = types[i].as_ts_type();
                    if i > 0 {
                        push_str(&mut out, " | ");
                    }
                    push_str(&mut out, name.as_str());
                    i = i + 1;
                }
                out
            },
        }
    }

    /// The TypeScript type of the value type.
    pub fn as_ts_type(&self) -> (s: String)
        ensures
            s@ == ts_type(*self, None),
        decreases ty_size(*self), 2nat,
    {
        self.as_ts_type_with_schema(None)
    }
}

/// `?` for a field or argument that may be left out.
pub open spec fn marker(optional: bool) -> Seq<char> {
    if optional {
        "?"@
    } else {
        Seq::empty()
    }
}

/// The fields of an interface, one per line.
pub open spec fn fields_ts(fs: Seq<StructField>) -> Seq<char>
    decreases fs.len(),
{
    if fs.len() == 0 {
        Seq::empty()
    } else {
        let f = fs.last();
        fields_ts(fs.drop_last()) + "    "@ + f.name@ + marker(f.optional) + ": "@ + f.ty@ + ";\n"@
    }
}

/// The interface of a struct type.
pub open spec fn struct_ts(d: StructDef) -> Seq<char> {
    "export interface "@ + d.name@ + " {\n"@ + fields_ts(d.fields@) + "}\n\n"@
}

/// The interfaces of the struct types of module `module`.
pub open spec fn structs_ts(ds: Seq<StructDef>, module: Seq<char>) -> Seq<char>
    decreases ds.len(),
{
    if ds.len() == 0 {
        Seq::empty()
    } else {
        structs_ts(ds.drop_last(), module) + if ds.last().module@ == module {
            struct_ts(ds.last())
        } else {
            Seq::empty()
        }
    }
}

/// The fields of an options interface, one per argument.
pub open spec fn args_ts(args: Seq<Arg>) -> Seq<char>
    decreases args.len(),
{
    if args.len() == 0 {
        Seq::empty()
    } else {
        let a = args.last();
        args_ts(args.drop_last()) + "    "@ + a.name@ + marker(a.optional) + ": "@ + ts_type(a.ty, None)
            + ";\n"@
    }
}

/// The arguments of a command description, one per argument.
pub open spec fn args_obj(args: Seq<Arg>) -> Seq<char>
    decreases args.len(),
{
    if args.len() == 0 {
        Seq::empty()
    } else {
        let a = args.last();
        args_obj(args.drop_last()) + "            "@ + a.name@ + ": new Arg(\""@ + dr_type(a.ty)
            + "\", options."@ + a.name@ + "),\n"@
    }
}

/// A command name with its first character upper-cased.
pub open spec fn cap_name(n: Seq<char>) -> Seq<char> {
    char_uppercased(n[0]) + n.skip(1)
}

/// The options interface of a command with arguments.
pub open spec fn options_part(c: CommandDef, opt: Seq<char>) -> Seq<char> {
    if c.args@.len() > 0 {
        "interface "@ + opt + " {\n"@ + args_ts(c.args@) + "}\n\n"@
    } else {
        Seq::empty()
    }
}

/// The two overloads of a command: with an id and without.
pub open spec fn overloads_part(c: CommandDef, opt: Seq<char>) -> Seq<char> {
    let n = c.name@;
    if c.args@.len() > 0 {
        "export function "@ + n + "(id: string, input: Input, options: "@ + opt + "): Command;\n"@
            + "export function "@ + n + "(input: Input, options: "@ + opt + "): Command;\n"@
    } else {
        "export function "@ + n + "(id: string, input: Input): Command;\n"@ + "export function "@ + n
            + "(input: Input): Command;\n"@
    }
}

/// The head of a command's implementation, which sorts out its arguments.
pub open spec fn head_part(c: CommandDef, opt: Seq<char>) -> Seq<char> {
    let n = c.name@;
    if c.args@.len() > 0 {
        "export function "@ + n + "(arg1: string | Input, arg2: Input | "@ + opt + ", arg3?: "@ + opt
            + "): Command {\n"@ + "    const hasId = typeof arg1 === 'string';\n"@
            + "    const id = hasId ? arg1 : undefined;\n"@
            + "    const input = hasId ? arg2 as Input : arg1 as Input;\n"@
            + "    const options = hasId ? arg3! : arg2 as "@ + opt + ";\n"@
    } else {
        "export function "@ + n + "(arg1: string | Input, arg2?: Input): Command {\n"@
            + "    const hasId = typeof arg1 === 'string';\n"@
            + "    const id = hasId ? arg1 : undefined;\n"@
            + "    const input = hasId ? arg2! : arg1 as Input;\n"@
    }
}

/// The start of the command description: id, module, command, input and
/// return type.
pub open spec fn desc_part(module: Seq<char>, c: CommandDef) -> Seq<char> {
    "    return new Command({\n"@ + "        id,\n"@ + "        module: \""@ + module + "\",\n"@
        + "        command: \""@ + c.name@ + "\",\n"@ + "        input,\n"@ + "        returns: \""@
        + dr_type(c.returns) + "\",\n"@
}

/// The rest of the command description: schema, kind and arguments, where
/// there are any.
pub open spec fn extra_part(c: CommandDef) -> Seq<char> {
    let schema = match opt_str(c.schema) {
        Some(sc) => "        schema: \""@ + sc + "\",\n"@,
        None => Seq::empty(),
    };
    let kind = match opt_str(c.kind) {
        Some(k) => "        kind: \""@ + k + "\",\n"@,
        None => Seq::empty(),
    };
    let args = if c.args@.len() > 0 {
        "        args: {\n"@ + args_obj(c.args@) + "        }\n"@
    } else {
        Seq::empty()
    };
    schema + kind + args
}

/// The bindings of a command of module `module`: its options interface
/// (where it has arguments), its two overloads (with and without an id),
/// and the implementation that builds its description.
pub open spec fn command_ts(module: Seq<char>, c: CommandDef) -> Seq<char> {
    let opt = cap_name(c.name@) + "Options"@;
    options_part(c, opt) + overloads_part(c, opt) + head_part(c, opt) + desc_part(module, c) + extra_part(
        c,
    ) + "    });\n"@ + "}\n\n"@
}

pub open spec fn commands_ts(module: Seq<char>, cs: Seq<CommandDef>) -> Seq<char>
    decreases cs.len(),
{
    if cs.len() == 0 {
        Seq::empty()
    } else {
        commands_ts(module, cs.drop_last()) + command_ts(module, cs.last())
    }
}

/// The bindings file of a module: the import line, the interfaces of its
/// struct types, and the bindings of its commands.
pub open spec fn module_ts(m: Module, structs: Seq<StructDef>) -> Seq<char> {
    "import { Arg, Command, Input } from './mod.ts';\n\n"@ + structs_ts(structs, m.name@) + commands_ts(
        m.name@,
        m.commands@,
    )
}

/// A command name can be capitalised: it starts with a one-byte character
/// (the name is sliced after its first byte).
pub open spec fn nameable(c: CommandDef) -> bool {
    c.args@.len() > 0 ==> c.name@.len() > 0 && (c.name@[0] as u32) < 0x80
}

/// A command name with its first character upper-cased.
fn capitalised(n: &str) -> (r: String)
    requires
        n@.len() > 0,
    ensures
        r@ == cap_name(n@),
{
    let v = chars_of(n);
    let mut r = char_to_uppercase(v[0]);
    let rest = string_of(&v, 1, v.len());
    push_str(&mut r, rest.as_str());
    assert(rest@ =~= n@.skip(1));
    r
}

fn struct_exec(out: &mut String, d: &StructDef)
    ensures
        final(out)@ == old(out)@ + struct_ts(*d),
{
    let ghost start = out@;
    push_str(out, "export interface ");
    push_str(out, d.name.as_str());
    push_str(out, " {\n");
    let ghost head = out@;
    let ghost fv = d.fields@;
    let mut k: usize = 0;
    assert(fv.take(0) =~= Seq::<StructField>::empty());
    assert(head + fields_ts(fv.take(0)) =~= head);
    while k < d.fields.len()
        invariant
            k <= d.fields@.len(),
            fv == d.fields@,
            out@ == head + fields_ts(fv.take(k as int)),
        decreases d.fields@.len() - k,
    {
        let f = &d.fields[k];
        push_str(out, "    ");
        push_str(out, f.name.as_str());
        if f.optional {
            push_str(out, "?");
        }
        push_str(out, ": ");
        push_str(out, f.ty.as_str());
        push_str(out, ";\n");
        assert(fv.take(k + 1).drop_last() =~= fv.take(k as int));
        assert(fv.take(k + 1).last() == *f);
        assert(out@ =~= head + fields_ts(fv.take(k + 1)));
        k = k + 1;
    }
    assert(fv.take(d.fields@.len() as int) =~= fv);
    push_str(out, "}\n\n");
    assert(out@ =~= start + struct_ts(*d));
}

fn args_exec(out: &mut String, args: &Vec<Arg>)
    ensures
        final(out)@ == old(out)@ + args_ts(args@),
{
    let ghost head = out@;
    let mut k: usize = 0;
    assert(args@.take(0) =~= Seq::<Arg>::empty());
    assert(head + args_ts(args@.take(0)) =~= head);
    while k < args.len()
        invariant
            k <= args@.len(),
            out@ == head + args_ts(args@.take(k as int)),
        decreases args@.len() - k,
    {
        let a = &args[k];
        push_str(out, "    ");
        push_str(out, a.name.as_str());
        if a.optional {
            push_str(out, "?");
        }
        push_str(out, ": ");
        push_str(out, a.ty.as_ts_type().as_str());
        push_str(out, ";\n");
        assert(args@.take(k + 1).drop_last() =~= args@.take(k as int));
        assert(args@.take(k + 1).last() == *a);
        assert(out@ =~= head + args_ts(args@.take(k + 1)));
        k = k + 1;
    }
    assert(args@.take(args@.len() as int) =~= args@);
}

fn args_obj_exec(out: &mut String, args: &Vec<Arg>)
    ensures
        final(out)@ == old(out)@ + args_obj(args@),
{
    let ghost head = out@;
    let mut k: usize = 0;
    assert(args@.take(0) =~= Seq::<Arg>::empty());
    assert(head + args_obj(args@.take(0)) =~= head);
    while k < args.len()
        invariant
            k <= args@.len(),
            out@ == head + args_obj(args@.take(k as int)),
        decreases args@.len() - k,
    {
        let a = &args[k];
        push_str(out, "            ");
        push_str(out, a.name.as_str());
        push_str(out, ": new Arg(\"");
        push_str(out, a.ty.as_dr_type().as_str());
        push_str(out, "\", options.");
        push_str(out, a.name.as_str());
        push_str(out, "),\n");
        assert(args@.take(k + 1).drop_last() =~= args@.take(k as int));
        assert(args@.take(k + 1).last() == *a);
        assert(out@ =~= head + args_obj(args@.take(k + 1)));
        k = k + 1;
    }
    assert(args@.take(args@.len() as int) =~= args@);
}

fn options_exec(out: &mut String, c: &CommandDef, opt: &str)
    ensures
        final(out)@ == old(out)@ + options_part(*c, opt@),
{
    let ghost start = out@;
    if c.args.len() > 0 {
        push_str(out, "interface ");
        push_str(out, opt);
        push_str(out, " {\n");
        args_exec(out, &c.args);
        push_str(out, "}\n\n");
    }
    assert(out@ =~= start + options_part(*c, opt@));
}

fn overloads_exec(out: &mut String, c: &CommandDef, opt: &str)
    ensures
        final(out)@ == old(out)@ + overloads_part(*c, opt@),
{
    let ghost start = out@;
    if c.args.len() > 0 {
        push_str(out, "export function ");
        push_str(out, c.name.as_str());
        push_str(out, "(id: string, input: Input, options: ");
        push_str(out, opt);
        push_str(out, "): Command;\n");
        push_str(out, "export function ");
        push_str(out, c.name.as_str());
        push_str(out, "(input: Input, options: ");
        push_str(out, opt);
        push_str(out, "): Command;\n");
    } else {
        push_str(out, "export function ");
        push_str(out, c.name.as_str());
        push_str(out, "(id: string, input: Input): Command;\n");
        push_str(out, "export function ");
        push_str(out, c.name.as_str());
        push_str(out, "(input: Input): Command;\n");
    }
    assert(out@ =~= start + overloads_part(*c, opt@));
}

fn head_exec(out: &mut String, c: &CommandDef, opt: &str)
    ensures
        final(out)@ == old(out)@ + head_part(*c, opt@),
{
    let ghost start = out@;
    if c.args.len() > 0 {
        push_str(out, "export function ");
        push_str(out, c.name.as_str());
        push_str(out, "(arg1: string | Input, arg2: Input | ");
        push_str(out, opt);
        push_str(out, ", arg3?: ");
        push_str(out, opt);
        push_str(out, "): Command {\n");
        push_str(out, "    const hasId = typeof arg1 === 'string';\n");
        push_str(out, "    const id = hasId ? arg1 : undefined;\n");
        push_str(out, "    const input = hasId ? arg2 as Input : arg1 as Input;\n");
        push_str(out, "    const options = hasId ? arg3! : arg2 as ");
        push_str(out, opt);
        push_str(out, ";\n");
    } else {
        push_str(out, "export function ");
        push_str(out, c.name.as_str());
        push_str(out, "(arg1: string | Input, arg2?: Input): Command {\n");
        push_str(out, "    const hasId = typeof arg1 === 'string';\n");
        push_str(out, "    const id = hasId ? arg1 : undefined;\n");
        push_str(out, "    const input = hasId ? arg2! : arg1 as Input;\n");
    }
    assert(out@ =~= start + head_part(*c, opt@));
}

fn desc_exec(out: &mut String, module: &str, c: &CommandDef)
    ensures
        final(out)@ == old(out)@ + desc_part(module@, *c),
{
    let ghost start = out@;
    push_str(out, "    return new Command({\n");
    push_str(out, "        id,\n");
    push_str(out, "        module: \"");
    push_str(out, module);
    push_str(out, "\",\n");
    push_str(out, "        command: \"");
    push_str(out, c.name.as_str());
    push_str(out, "\",\n");
    push_str(out, "        input,\n");
    push_str(out, "        returns: \"");
    push_str(out, c.returns.as_dr_type().as_str());
    push_str(out, "\",\n");
    assert(out@ =~= start + desc_part(module@, *c));
}

fn extra_exec(out: &mut String, c: &CommandDef)
    ensures
        final(out)@ == old(out)@ + extra_part(*c),
{
    let ghost start = out@;
    match &c.schema {
        Some(sc) => {
            push_str(out, "        schema: \"");
            push_str(out, sc.as_str());
            push_str(out, "\",\n");
        },
        None => {},
    }
    let ghost s1 = out@;
    match &c.kind {
        Some(k) => {
            push_str(out, "        kind: \"");
            push_str(out, k.as_str());
            push_str(out, "\",\n");
        },
        None => {},
    }
    let ghost s2 = out@;
    if c.args.len() > 0 {
        push_str(out, "        args: {\n");
        args_obj_exec(out, &c.args);
        push_str(out, "        }\n");
    }
    assert(out@ =~= start + extra_part(*c));
}

fn command_exec(out: &mut String, module: &str, c: &CommandDef)
    requires
        nameable(*c),
    ensures
        final(out)@ == old(out)@ + command_ts(module@, *c),
{
    let ghost start = out@;
    let opt = if c.args.len() > 0 {
        let mut o = capitalised(c.name.as_str());
        push_str(&mut o, "Options");
        o
    } else {
        String::new()
    };
    let ghost optv = cap_name(c.name@) + "Options"@;
    proof {
        if c.args@.len() == 0 {
            assert(options_part(*c, opt@) == options_part(*c, optv));
            assert(overloads_part(*c, opt@) == overloads_part(*c, optv));
            assert(head_part(*c, opt@) == head_part(*c, optv));
        } else {
            assert(opt@ =~= optv);
        }
    }
    options_exec(out, c, opt.as_str());
    overloads_exec(out, c, opt.as_str());
    head_exec(out, c, opt.as_str());
    desc_exec(out, module, c);
    extra_exec(out, c);
    push_str(out, "    });\n");
    push_str(out, "}\n\n");
    assert(out@ =~= start + command_ts(module@, *c));
}

/// The TypeScript bindings of a module, with the interfaces of its struct
/// types among `structs`.
pub fn generate_ts(module: &Module, structs: &Vec<StructDef>) -> (s: String)
    requires
        forall|i: int| 0 <= i < module.commands@.len() ==> nameable(#[trigger] module.commands@[i]),
    ensures
        s@ == module_ts(*module, structs@),
{
    let mut s = String::new();
    push_str(&mut s, "import { Arg, Command, Input } from './mod.ts';\n\n");
    let ghost h = s@;
    let mut k: usize = 0;
    assert(structs@.take(0) =~= Seq::<StructDef>::empty());
    assert(h + structs_ts(structs@.take(0), module.name@) =~= h);
    while k < structs.len()
        invariant
            k <= structs@.len(),
            s@ == h + structs_ts(structs@.take(k as int), module.name@),
        decreases structs@.len() - k,
    {
        let d = &structs[k];
        if str_eq(d.module.as_str(), module.name.as_str()) {
            struct_exec(&mut s, d);
        }
        assert(structs@.take(k + 1).drop_last() =~= structs@.take(k as int));
        assert(structs@.take(k + 1).last() == *d);
        assert(s@ =~= h + structs_ts(structs@.take(k + 1), module.name@));
        k = k + 1;
    }
    assert(structs@.take(structs@.len() as int) =~= structs@);
    let ghost h2 = s@;
    let mut j: usize = 0;
    assert(module.commands@.take(0) =~= Seq::<CommandDef>::empty());
    assert(h2 + commands_ts(module.name@, module.commands@.take(0)) =~= h2);
    while j < module.commands.len()
        invariant
            j <= module.commands@.len(),
            forall|i: int| 0 <= i < module.commands@.len() ==> nameable(#[trigger] module.commands@[i]),
            s@ == h2 + commands_ts(module.name@, module.commands@.take(j as int)),
        decreases module.commands@.len() - j,
    {
        let c = &module.commands[j];
        assert(nameable(module.commands@[j as int]));
        command_exec(&mut s, module.name.as_str(), c);
        assert(module.commands@.take(j + 1).drop_last() =~= module.commands@.take(j as int));
        assert(module.commands@.take(j + 1).last() == *c);
        assert(s@ =~= h2 + commands_ts(module.name@, module.commands@.take(j + 1)));
        j = j + 1;
    }
    assert(module.commands@.take(module.commands@.len() as int) =~= module.commands@);
    s
}


/// The TypeScript type of each value type, whatever schema is given beside
/// it: a number for an integer, a string for a path or a string, a byte
/// array for bytes; an array type is its element's type with `[]`, a map
/// type a `Record` from strings to its element's type; a JSON value has the
/// schema's type, or `any` without one; a struct is named; a union of one
/// type is that type.
pub proof fn lemma_ts_types(schema: Option<Seq<char>>, name: String, u: Vec<Ty>)
    ensures
        ts_type(Ty::Int, schema) == "number"@,
        ts_type(Ty::String, schema) == "string"@,
        ts_type(Ty::Path, schema) == "string"@,
        ts_type(Ty::Bytes, schema) == "Uint8Array"@,
        ts_type(Ty::ArrayString, schema) == ts_type(Ty::String, None) + "[]"@,
        ts_type(Ty::ArrayBytes, schema) == ts_type(Ty::Bytes, None) + "[]"@,
        ts_type(Ty::MapPath, schema) == "Record<string, "@ + ts_type(Ty::Path, None) + ">"@,
        ts_type(Ty::MapString, schema) == "Record<string, "@ + ts_type(Ty::String, None) + ">"@,
        ts_type(Ty::MapBytes, schema) == "Record<string, "@ + ts_type(Ty::Bytes, None) + ">"@,
        ts_type(Ty::Json, None) == "any"@,
        schema matches Some(x) ==> ts_type(Ty::Json, schema) == x,
        ts_type(Ty::Struct(name), schema) == name@,
        u@.len() == 1 ==> ts_type(Ty::Union(u), schema) == ts_type(u@[0], None),
        u@.len() == 2 ==> ts_type(Ty::Union(u), schema) == ts_type(u@[0], None) + " | "@ + ts_type(
            u@[1],
            None,
        ),
{
    reveal_strlit("number");
    reveal_strlit("string");
    reveal_strlit("Uint8Array");
    reveal_strlit("[]");
    reveal_strlit("string[]");
    reveal_strlit("Uint8Array[]");
    reveal_strlit("Record<string, ");
    reveal_strlit(">");
    reveal_strlit("Record<string, string>");
    reveal_strlit("Record<string, Uint8Array>");
    reveal_strlit("any");
    assert("string"@ + "[]"@ =~= "string[]"@);
    assert("Uint8Array"@ + "[]"@ =~= "Uint8Array[]"@);
    assert("Record<string, "@ + "string"@ + ">"@ =~= "Record<string, string>"@);
    assert("Record<string, "@ + "Uint8Array"@ + ">"@ =~= "Record<string, Uint8Array>"@);
    if u@.len() == 2 {
        assert(ts_union(u@, 1) == ts_type(u@[0], None));
    }
}

} // verus!
