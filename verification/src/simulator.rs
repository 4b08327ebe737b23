use vstd::prelude::*;

verus! {

/// A type with an identifier type of its own.
pub trait Identifiable {
    type ID;
}

/// The outcome of a simulation step; the error says what went wrong.
pub type SimResult<T> = Result<T, String>;

/// What a simulation step asks the user interface to do.
#[derive(Debug)]
pub enum UICallback {
    Redraw,
    Error(String),
}

/// The text of the error for a module that is simulated inside itself.
pub open spec fn recursion_error(name: Seq<char>) -> Seq<char> {
    "Recursion detected; Block of module \""@ + name + "\" is already on the call stack."@
}

/// The error is the one for a module simulated inside itself.
pub open spec fn is_recursion_error(e: Seq<char>) -> bool {
    exists|name: Seq<char>| e == #[trigger] recursion_error(name)
}

/// Builds the error for a module that is simulated inside itself.
pub(crate) fn recursion_message(name: &String) -> (s: String)
    ensures
        s@ == recursion_error(name@),
{
    let mut s = String::from_str("Recursion detected; Block of module \"");
    s.append(name.as_str());
    s.append("\" is already on the call stack.");
    s
}

/// Whether the call stack holds `name`.
pub open spec fn stack_has(stack: Seq<String>, name: Seq<char>) -> bool {
    exists|i: int| 0 <= i < stack.len() && (#[trigger] stack[i])@ == name
}

/// Whether the call stack holds `name`.
pub fn stack_contains(stack: &Vec<String>, name: &String) -> (b: bool)
    ensures
        b == stack_has(stack@, name@),
{
    let mut i: usize = 0;
    while i < stack.len()
        invariant
            0 <= i <= stack.len(),
            forall|j: int| 0 <= j < i ==> (#[trigger] stack@[j])@ != name@,
        decreases stack.len() - i,
    {
        if stack[i] == *name {
            return true;
        }
        i = i + 1;
    }
    false
}

} // verus!
