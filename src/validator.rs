//! Marshalling of script values to native values, with argument type checks.
use vstd::prelude::*;

verus! {

/// What the native side reads of a value handed over by a script: a
/// string, `undefined`, or a value of another type with its string form.
#[derive(Clone, Debug, PartialEq, Eq)]
pub enum ScriptValue {
    Undefined,
    Str(String),
    Other(String),
}

/// The string form of a script value.
pub open spec fn display_form(v: ScriptValue) -> Seq<char> {
    match v {
        ScriptValue::Undefined => "undefined"@,
        ScriptValue::Str(s) => s@,
        ScriptValue::Other(s) => s@,
    }
}

impl ScriptValue {
    /// The string form of this value, as the console prints it.
    pub fn to_display(&self) -> (r: String)
        ensures
            r@ == display_form(*self),
    {
        match self {
            ScriptValue::Undefined => String::from_str("undefined"),
            ScriptValue::Str(s) => s.clone(),
            ScriptValue::Other(s) => s.clone(),
        }
    }
}

/// A script-visible type error raised when a native-backed function gets an
/// argument of the wrong type.
#[derive(Clone, Debug, PartialEq, Eq)]
pub struct TypeError {
    pub arg_name: String,
}

/// The message of a type error about the argument `name`.
pub open spec fn type_error_message(name: Seq<char>) -> Seq<char> {
    "The \""@ + name + "\" argument must be of type string."@
}

impl TypeError {
    /// The text shown to scripts for this error.
    pub fn message(&self) -> (r: String)
        ensures
            r@ == type_error_message(self.arg_name@),
    {
        let r = String::from_str("The \"");
        let r = r.concat(self.arg_name.as_str());
        r.concat("\" argument must be of type string.")
    }
}

/// Converts a script string to a native string; any other value yields a
/// type error naming `arg_name`.
pub fn validate_string(arg: &ScriptValue, arg_name: &str) -> (r: Result<String, TypeError>)
    ensures
        match arg {
            ScriptValue::Str(s) => r == Ok::<String, TypeError>(*s),
            _ => r is Err && r->Err_0.arg_name@ == arg_name@,
        },
{
    match arg {
        ScriptValue::Str(s) => Ok(s.clone()),
        _ => Err(TypeError { arg_name: String::from_str(arg_name) }),
    }
}

} // verus!
