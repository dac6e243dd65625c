use vstd::prelude::*;
use crate::data::{Symbol, Val, Value};

verus! {

/// What can go wrong while reading, expanding or evaluating.
#[derive(Debug)]
pub enum GlutenError {
    /// A symbol was evaluated that no environment binds.
    Unbound(Symbol),
    /// The head of an evaluated list is not something that can be applied.
    NotFunction(Val),
    /// The source text is not a well-formed form; the message says why.
    ReadFailed(String),
    /// Any other failure, with its message.
    Str(String),
    /// An error raised inside the application of the named operator.
    Stacked(String, Box<GlutenError>),
    /// Evaluation stopped with a value and the continuation that resumes it.
    Frozen(Val, Val),
    /// Evaluation nested deeper than the interpreter allows.
    DepthExceeded,
}

/// The mathematical value of a [`GlutenError`].
pub enum Error {
    Unbound(nat),
    NotFunction(Value),
    ReadFailed(Seq<char>),
    Str(Seq<char>),
    Stacked(Seq<char>, Box<Error>),
    Frozen(Value, Value),
    DepthExceeded,
}

impl View for GlutenError {
    type V = Error;

    open spec fn view(&self) -> Error
        decreases self,
    {
        match self {
            GlutenError::Unbound(s) => Error::Unbound(s.0 as nat),
            GlutenError::NotFunction(v) => Error::NotFunction(v@),
            GlutenError::ReadFailed(m) => Error::ReadFailed(m@),
            GlutenError::Str(m) => Error::Str(m@),
            GlutenError::Stacked(name, inner) => Error::Stacked(name@, Box::new((**inner).view())),
            GlutenError::Frozen(v, k) => Error::Frozen(v@, k@),
            GlutenError::DepthExceeded => Error::DepthExceeded,
        }
    }
}

/// The mathematical value of the outcome of a step that yields a value.
pub open spec fn result_view(r: Result<Val, GlutenError>) -> Result<Value, Error> {
    match r {
        Ok(v) => Ok(v@),
        Err(e) => Err(e@),
    }
}

/// An error carrying `msg`.
pub fn str_error(msg: &str) -> (r: GlutenError)
    ensures
        r@ == Error::Str(msg@),
{
    GlutenError::Str(String::from_str(msg))
}

/// A read error carrying `msg`.
pub fn read_error(msg: &str) -> (r: GlutenError)
    ensures
        r@ == Error::ReadFailed(msg@),
{
    GlutenError::ReadFailed(String::from_str(msg))
}

impl GlutenError {
    /// A copy of the error, equal to it as a mathematical value.
    pub fn duplicate(&self) -> (r: GlutenError)
        ensures
            r@ == self@,
        decreases self,
    {
        match self {
            GlutenError::Unbound(s) => GlutenError::Unbound(*s),
            GlutenError::NotFunction(v) => GlutenError::NotFunction(v.duplicate()),
            GlutenError::ReadFailed(m) => GlutenError::ReadFailed(m.clone()),
            GlutenError::Str(m) => GlutenError::Str(m.clone()),
            GlutenError::Stacked(name, inner) => {
                let i = (**inner).duplicate();
                GlutenError::Stacked(name.clone(), Box::new(i))
            },
            GlutenError::Frozen(v, k) => GlutenError::Frozen(v.duplicate(), k.duplicate()),
            GlutenError::DepthExceeded => GlutenError::DepthExceeded,
        }
    }
}

} // verus!

verus! {

/// The message of an error; symbols are named from `names`.
pub open spec fn error_message(names: Seq<Seq<char>>, e: Error) -> Seq<char>
    decreases e,
{
    match e {
        Error::Unbound(i) => "Unbound Symbol: "@ + (if i < names.len() {
            names[i as int]
        } else {
            "#"@ + crate::chars::decimal(i)
        }),
        Error::NotFunction(v) => "Not a function: "@ + crate::data::val_debug(names, v),
        Error::ReadFailed(m) => "Read failed: "@ + m,
        Error::Str(m) => m,
        Error::Stacked(name, inner) => error_message(names, *inner) + "\nin "@ + name,
        Error::Frozen(_, _) => "Frozen..."@,
        Error::DepthExceeded => "Evaluation nested too deeply"@,
    }
}

impl GlutenError {
    /// The message of the error; symbols are named from `package`.
    pub fn message(&self, package: &crate::package::Package) -> (r: String)
        ensures
            r@ == error_message(package@, self@),
        decreases self,
    {
        match self {
            GlutenError::Unbound(s) => {
                let mut out = String::from_str("Unbound Symbol: ");
                if s.0 < package.len() {
                    out.append(package.name(*s).as_str());
                } else {
                    out.append("#");
                    crate::chars::push_decimal(s.0 as u128, &mut out);
                }
                out
            },
            GlutenError::NotFunction(v) => {
                let mut out = String::from_str("Not a function: ");
                let shown = v.debug_string(package);
                out.append(shown.as_str());
                out
            },
            GlutenError::ReadFailed(m) => {
                let mut out = String::from_str("Read failed: ");
                out.append(m.as_str());
                out
            },
            GlutenError::Str(m) => m.clone(),
            GlutenError::Stacked(name, inner) => {
                let mut out = (**inner).message(package);
                out.append("\nin ");
                out.append(name.as_str());
                out
            },
            GlutenError::Frozen(_, _) => String::from_str("Frozen..."),
            GlutenError::DepthExceeded => String::from_str("Evaluation nested too deeply"),
        }
    }
}

} // verus!
