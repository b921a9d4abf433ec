//! The native capabilities handed to scripts, and the bootstrap scripts
//! that install them into the global scope.
use vstd::prelude::*;
use crate::validator::{ScriptValue, TypeError, validate_string, display_form};

verus! {

/// Installs `console.log`, `console.error` and `console.warn` as the
/// capability object's printer. Defining a property to the same value
/// twice is harmless, so running it again changes nothing.
pub const CONSOLE_BOOTSTRAP: &'static str = "({ printer }) => {
    ['log', 'error', 'warn'].map(level => {
        Object.defineProperty(globalThis.console, level, {
            value: printer
        })
    })
}";

/// Binds the whole capability object to the global name `Runtime`.
pub const RUNTIME_BOOTSTRAP: &'static str = "(runtime) => {
    globalThis.Runtime = runtime;
}";

/// A native-backed function of the capability object.
#[derive(PartialEq, Eq, Structural, Clone, Copy, Debug)]
pub enum Builtin {
    Printer,
    ReadFileSync,
    MakeDirSync,
    ReadDirSync,
    WriteTextFileSync,
    Cwd,
}

/// The host operation that a builtin call asks for, once its arguments
/// have been checked.
#[derive(Clone, Debug, PartialEq, Eq)]
pub enum HostRequest {
    Print(String),
    ReadFile(String),
    MakeDir(String),
    ReadDir(String),
    WriteTextFile(String, String),
    Cwd,
}

pub open spec fn builtin_name(b: Builtin) -> Seq<char> {
    match b {
        Builtin::Printer => "printer"@,
        Builtin::ReadFileSync => "readFileSync"@,
        Builtin::MakeDirSync => "makeDirSync"@,
        Builtin::ReadDirSync => "readDirSync"@,
        Builtin::WriteTextFileSync => "writeTextFileSync"@,
        Builtin::Cwd => "cwd"@,
    }
}

/// Argument `k` of a call: `undefined` past the end, as in scripts.
pub open spec fn arg_at(args: Seq<ScriptValue>, k: int) -> ScriptValue {
    if 0 <= k < args.len() {
        args[k]
    } else {
        ScriptValue::Undefined
    }
}

/// The request that a call of `b` with `args` makes: every string argument
/// is checked in order, and the name of the first one that is not a string
/// is the error. The printer takes any value (see [`Builtin::prepare`]).
pub open spec fn request_of(b: Builtin, args: Seq<ScriptValue>) -> Result<HostRequest, Seq<char>>
    recommends
        b != Builtin::Printer,
{
    match b {
        Builtin::Printer => Err(Seq::empty()),
        Builtin::Cwd => Ok(HostRequest::Cwd),
        _ => match arg_at(args, 0) {
            ScriptValue::Str(path) => match b {
                Builtin::ReadFileSync => Ok(HostRequest::ReadFile(path)),
                Builtin::MakeDirSync => Ok(HostRequest::MakeDir(path)),
                Builtin::ReadDirSync => Ok(HostRequest::ReadDir(path)),
                _ => match arg_at(args, 1) {
                    ScriptValue::Str(contents) => Ok(HostRequest::WriteTextFile(path, contents)),
                    _ => Err("contents"@),
                },
            },
            _ => Err("path"@),
        },
    }
}

/// The capability object; see [`Builtins::create`].
pub struct Builtins {}

impl Builtins {
    /// The capability object, as pairs of property name and builtin, in
    /// the order in which they are installed.
    pub fn create() -> (r: Vec<(&'static str, Builtin)>)
        ensures
            r@.len() == 6,
            forall|i: int| 0 <= i < 6 ==> #[trigger] r@[i].0@ == builtin_name(r@[i].1),
            r@[0].1 == Builtin::Printer,
            r@[1].1 == Builtin::ReadFileSync,
            r@[2].1 == Builtin::MakeDirSync,
            r@[3].1 == Builtin::ReadDirSync,
            r@[4].1 == Builtin::WriteTextFileSync,
            r@[5].1 == Builtin::Cwd,
    {
        let mut r: Vec<(&'static str, Builtin)> = Vec::new();
        r.push((Builtin::Printer.name(), Builtin::Printer));
        r.push((Builtin::ReadFileSync.name(), Builtin::ReadFileSync));
        r.push((Builtin::MakeDirSync.name(), Builtin::MakeDirSync));
        r.push((Builtin::ReadDirSync.name(), Builtin::ReadDirSync));
        r.push((Builtin::WriteTextFileSync.name(), Builtin::WriteTextFileSync));
        r.push((Builtin::Cwd.name(), Builtin::Cwd));
        r
    }

    /// The bootstrap scripts, as pairs of logical name and source, in the
    /// order in which they run; each receives the capability object.
    pub fn bootstrap_scripts() -> (r: Vec<(&'static str, &'static str)>)
        ensures
            r@.len() == 2,
            r@[0].0@ == "console.js"@,
            r@[0].1@ == CONSOLE_BOOTSTRAP@,
            r@[1].0@ == "fs.js"@,
            r@[1].1@ == RUNTIME_BOOTSTRAP@,
    {
        let mut r: Vec<(&'static str, &'static str)> = Vec::new();
        r.push(("console.js", CONSOLE_BOOTSTRAP));
        r.push(("fs.js", RUNTIME_BOOTSTRAP));
        r
    }
}

fn arg(args: &Vec<ScriptValue>, k: usize) -> (r: &ScriptValue)
    ensures
        *r == arg_at(args@, k as int),
{
    if k < args.len() {
        &args[k]
    } else {
        &UNDEFINED
    }
}

const UNDEFINED: ScriptValue = ScriptValue::Undefined;

impl Builtin {
    /// The property name of this builtin in the capability object.
    pub fn name(&self) -> (r: &'static str)
        ensures
            r@ == builtin_name(*self),
    {
        match self {
            Builtin::Printer => "printer",
            Builtin::ReadFileSync => "readFileSync",
            Builtin::MakeDirSync => "makeDirSync",
            Builtin::ReadDirSync => "readDirSync",
            Builtin::WriteTextFileSync => "writeTextFileSync",
            Builtin::Cwd => "cwd",
        }
    }

    /// Checks the arguments of a call of this builtin and says which host
    /// operation it asks for. The printer prints the string form of its
    /// first argument. The others check their arguments in order and stop
    /// at the first that is not a string, so that a refused call has no
    /// effect at all.
    pub fn prepare(&self, args: &Vec<ScriptValue>) -> (r: Result<HostRequest, TypeError>)
        ensures
            *self == Builtin::Printer ==> (r matches Ok(HostRequest::Print(s)) && s@ == display_form(arg_at(args@, 0))),
            *self != Builtin::Printer ==> match (r, request_of(*self, args@)) {
                (Ok(a), Ok(b)) => a == b,
                (Err(e), Err(name)) => e.arg_name@ == name,
                _ => false,
            },
    {
        match self {
            Builtin::Printer => Ok(HostRequest::Print(arg(args, 0).to_display())),
            Builtin::Cwd => Ok(HostRequest::Cwd),
            _ => {
                let path = match validate_string(arg(args, 0), "path") {
                    Ok(p) => p,
                    Err(e) => {
                        proof { reveal_strlit("path"); }
                        return Err(e);
                    }
                };
                match self {
                    Builtin::ReadFileSync => Ok(HostRequest::ReadFile(path)),
                    Builtin::MakeDirSync => Ok(HostRequest::MakeDir(path)),
                    Builtin::ReadDirSync => Ok(HostRequest::ReadDir(path)),
                    _ => match validate_string(arg(args, 1), "contents") {
                        Ok(contents) => Ok(HostRequest::WriteTextFile(path, contents)),
                        Err(e) => {
                            proof { reveal_strlit("contents"); }
                            Err(e)
                        }
                    },
                }
            }
        }
    }
}

} // verus!
