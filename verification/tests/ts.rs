use divvun_runtime::pipeline::{StructField, Ty};
use divvun_runtime::ts::{generate_ts, Arg, CommandDef, Module, StructDef};

#[test]
fn ts_types_of_value_types() {
    assert_eq!(Ty::MapBytes.as_ts_type(), "Record<string, Uint8Array>");
    assert_eq!(Ty::Json.as_ts_type_with_schema(Some("Errors")), "Errors");
    assert_eq!(Ty::Json.as_ts_type(), "any");
    assert_eq!(
        Ty::Union(vec![Ty::String, Ty::Struct("Foo".to_string()), Ty::ArrayBytes]).as_ts_type(),
        "string | Foo | Uint8Array[]"
    );
}

#[test]
fn bindings_of_a_module() {
    let module = Module {
        name: "divvun".to_string(),
        commands: vec![
            CommandDef {
                name: "suggest".to_string(),
                args: vec![Arg { name: "model_path".to_string(), ty: Ty::Path, optional: false }],
                returns: Ty::Json,
                kind: None,
                schema: Some("Errors".to_string()),
            },
            CommandDef {
                name: "blanktag".to_string(),
                args: vec![],
                returns: Ty::String,
                kind: Some("cg3".to_string()),
                schema: None,
            },
        ],
    };
    let structs = vec![
        StructDef {
            name: "Err".to_string(),
            module: "divvun".to_string(),
            fields: vec![StructField { name: "form".to_string(), ty: "string".to_string(), optional: true }],
        },
        StructDef { name: "Other".to_string(), module: "speech".to_string(), fields: vec![] },
    ];
    let want = "import { Arg, Command, Input } from './mod.ts';\n\n\
export interface Err {\n    form?: string;\n}\n\n\
interface SuggestOptions {\n    model_path: string;\n}\n\n\
export function suggest(id: string, input: Input, options: SuggestOptions): Command;\n\
export function suggest(input: Input, options: SuggestOptions): Command;\n\
export function suggest(arg1: string | Input, arg2: Input | SuggestOptions, arg3?: SuggestOptions): Command {\n\
\x20   const hasId = typeof arg1 === 'string';\n\
\x20   const id = hasId ? arg1 : undefined;\n\
\x20   const input = hasId ? arg2 as Input : arg1 as Input;\n\
\x20   const options = hasId ? arg3! : arg2 as SuggestOptions;\n\
\x20   return new Command({\n\
\x20       id,\n\
\x20       module: \"divvun\",\n\
\x20       command: \"suggest\",\n\
\x20       input,\n\
\x20       returns: \"json\",\n\
\x20       schema: \"Errors\",\n\
\x20       args: {\n\
\x20           model_path: new Arg(\"path\", options.model_path),\n\
\x20       }\n\
\x20   });\n\
}\n\n\
export function blanktag(id: string, input: Input): Command;\n\
export function blanktag(input: Input): Command;\n\
export function blanktag(arg1: string | Input, arg2?: Input): Command {\n\
\x20   const hasId = typeof arg1 === 'string';\n\
\x20   const id = hasId ? arg1 : undefined;\n\
\x20   const input = hasId ? arg2! : arg1 as Input;\n\
\x20   return new Command({\n\
\x20       id,\n\
\x20       module: \"divvun\",\n\
\x20       command: \"blanktag\",\n\
\x20       input,\n\
\x20       returns: \"string\",\n\
\x20       kind: \"cg3\",\n\
\x20   });\n\
}\n\n";
    assert_eq!(generate_ts(&module, &structs), want);
}
