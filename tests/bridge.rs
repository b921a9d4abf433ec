use js_runtime::builtins::{Builtin, Builtins, HostRequest, CONSOLE_BOOTSTRAP, RUNTIME_BOOTSTRAP};
use js_runtime::validator::{validate_string, ScriptValue, TypeError};

fn s(v: &str) -> ScriptValue {
    ScriptValue::Str(v.to_string())
}

#[test]
fn validate_string_accepts_strings() {
    assert_eq!(validate_string(&s("a/b.txt"), "path"), Ok("a/b.txt".to_string()));
}

#[test]
fn validate_string_rejects_other_values() {
    let e = validate_string(&ScriptValue::Other("42".to_string()), "path").unwrap_err();
    assert_eq!(e.arg_name, "path");
    assert_eq!(e.message(), "The \"path\" argument must be of type string.");
    assert!(validate_string(&ScriptValue::Undefined, "x").is_err());
}

#[test]
fn write_text_file_with_number_contents_is_type_error() {
    let r = Builtin::WriteTextFileSync.prepare(&vec![s("/tmp/out.txt"), ScriptValue::Other("42".to_string())]);
    let e = r.unwrap_err();
    assert_eq!(e, TypeError { arg_name: "contents".to_string() });
    assert_eq!(e.message(), "The \"contents\" argument must be of type string.");
}

#[test]
fn write_text_file_checks_path_first() {
    let r = Builtin::WriteTextFileSync.prepare(&vec![ScriptValue::Other("1".to_string()), ScriptValue::Other("2".to_string())]);
    assert_eq!(r.unwrap_err().arg_name, "path");
}

#[test]
fn write_text_file_with_strings() {
    let r = Builtin::WriteTextFileSync.prepare(&vec![s("/tmp/out.txt"), s("hello")]);
    assert_eq!(r, Ok(HostRequest::WriteTextFile("/tmp/out.txt".to_string(), "hello".to_string())));
}

#[test]
fn read_file_sync_requests_the_path() {
    assert_eq!(Builtin::ReadFileSync.prepare(&vec![s("notes.txt")]), Ok(HostRequest::ReadFile("notes.txt".to_string())));
}

#[test]
fn read_file_sync_without_argument_is_type_error() {
    assert_eq!(Builtin::ReadFileSync.prepare(&vec![]).unwrap_err().arg_name, "path");
}

#[test]
fn dir_builtins_request_their_path() {
    assert_eq!(Builtin::ReadDirSync.prepare(&vec![s("d")]), Ok(HostRequest::ReadDir("d".to_string())));
    assert_eq!(Builtin::MakeDirSync.prepare(&vec![s("d")]), Ok(HostRequest::MakeDir("d".to_string())));
    assert!(Builtin::MakeDirSync.prepare(&vec![ScriptValue::Undefined]).is_err());
}

#[test]
fn cwd_takes_no_arguments() {
    assert_eq!(Builtin::Cwd.prepare(&vec![]), Ok(HostRequest::Cwd));
}

#[test]
fn printer_prints_string_form() {
    assert_eq!(Builtin::Printer.prepare(&vec![s("hi")]), Ok(HostRequest::Print("hi".to_string())));
    assert_eq!(Builtin::Printer.prepare(&vec![ScriptValue::Other("42".to_string())]), Ok(HostRequest::Print("42".to_string())));
    assert_eq!(Builtin::Printer.prepare(&vec![]), Ok(HostRequest::Print("undefined".to_string())));
}

#[test]
fn capability_object_names() {
    let names: Vec<&str> = Builtins::create().iter().map(|(n, _)| *n).collect();
    assert_eq!(names, vec!["printer", "readFileSync", "makeDirSync", "readDirSync", "writeTextFileSync", "cwd"]);
    for (n, b) in Builtins::create() {
        assert_eq!(n, b.name());
    }
}

#[test]
fn bootstrap_scripts_in_order() {
    let scripts = Builtins::bootstrap_scripts();
    assert_eq!(scripts.len(), 2);
    assert_eq!(scripts[0], ("console.js", CONSOLE_BOOTSTRAP));
    assert_eq!(scripts[1], ("fs.js", RUNTIME_BOOTSTRAP));
    assert!(CONSOLE_BOOTSTRAP.contains("defineProperty"));
    assert!(RUNTIME_BOOTSTRAP.contains("globalThis.Runtime = runtime"));
}
