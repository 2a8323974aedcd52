//! The greeting transformer: a pure function from a decoded request record
//! to a response record.

use vstd::prelude::*;
use vstd::string::StringExecFns;

verus! {

/// The decoded request: a required `name` and an optional boolean flag.
pub struct Input {
    pub name: String,
    pub test_param: Option<bool>,
}

/// The response: the computed greeting text.
pub struct Output {
    pub greeting: String,
}

/// Never produced by the transformer; the error channel exists only so that
/// the invocation shells can propagate every failure through one shape.
#[derive(Debug)]
pub struct TransformError;

/// The greeting template with the name substituted verbatim.
pub open spec fn base_greeting(name: Seq<char>) -> Seq<char> {
    "Hello Rusty Lambda World! Received param name: "@ + name + "!"@
}

/// The text a boolean renders as.
pub open spec fn bool_text(b: bool) -> Seq<char> {
    if b {
        "true"@
    } else {
        "false"@
    }
}

/// Presence-gated greeting: a present flag appends a suffix naming its
/// value, in either case; an absent flag appends nothing.
pub open spec fn greeting_text(name: Seq<char>, flag: Option<bool>) -> Seq<char> {
    match flag {
        Option::None => base_greeting(name),
        Option::Some(b) => base_greeting(name) + " And param test was set as "@ + bool_text(b)
            + "!"@,
    }
}

/// Value-gated variant: only a flag that is present and true appends its
/// (fixed) suffix; a false or absent flag appends nothing.
pub open spec fn value_gated_greeting_text(name: Seq<char>, flag: Option<bool>) -> Seq<char> {
    if flag == Option::Some(true) {
        base_greeting(name) + " And param test was set!"@
    } else {
        base_greeting(name)
    }
}

/// The greeting transformer. It cannot fail: the `Result` shape only
/// mirrors what the invocation shells expect to propagate.
pub fn process_input(input: Input) -> (r: Result<Output, TransformError>)
    ensures
        r matches Ok(o) && o.greeting@ == greeting_text(input.name@, input.test_param),
{
    let mut greeting: String = "Hello Rusty Lambda World! Received param name: ".to_owned();
    greeting.append(input.name.as_str());
    greeting.append("!");
    match input.test_param {
        Option::Some(b) => {
            greeting.append(" And param test was set as ");
            if b {
                greeting.append("true");
            } else {
                greeting.append("false");
            }
            greeting.append("!");
        },
        Option::None => {},
    }
    Ok(Output { greeting })
}

/// Value-gated variant of the transformer, kept beside the presence-gated
/// one so a caller can pick either policy explicitly.
pub fn value_gated_process_input(input: Input) -> (r: Result<Output, TransformError>)
    ensures
        r matches Ok(o) && o.greeting@ == value_gated_greeting_text(input.name@, input.test_param),
{
    let mut greeting: String = "Hello Rusty Lambda World! Received param name: ".to_owned();
    greeting.append(input.name.as_str());
    greeting.append("!");
    if input.test_param == Some(true) {
        greeting.append(" And param test was set!");
    }
    Ok(Output { greeting })
}

/// Law: under the presence-gated policy, a present flag appends exactly the
/// suffix naming its value, and an absent flag leaves the base greeting.
pub proof fn lemma_presence_gated_suffix(name: Seq<char>, flag: Option<bool>)
    ensures
        flag matches Option::Some(b) ==> greeting_text(name, flag) == base_greeting(name)
            + (" And param test was set as "@ + bool_text(b) + "!"@),
        flag is None ==> greeting_text(name, flag) == base_greeting(name),
{
    if let Option::Some(b) = flag {
        assert(greeting_text(name, flag) =~= base_greeting(name)
            + (" And param test was set as "@ + bool_text(b) + "!"@));
    }
}

/// Law: under the value-gated policy, only a flag that is present and true
/// appends its fixed suffix; a false or absent flag leaves the base greeting.
pub proof fn lemma_value_gated_suffix(name: Seq<char>, flag: Option<bool>)
    ensures
        flag == Option::<bool>::Some(true) ==> value_gated_greeting_text(name, flag)
            == base_greeting(name) + " And param test was set!"@,
        flag != Option::<bool>::Some(true) ==> value_gated_greeting_text(name, flag)
            == base_greeting(name),
{
}

/// Law: the transformer is a pure function of its input, so two calls on
/// equal inputs yield equal greetings.
pub proof fn lemma_transformer_deterministic(a: Input, b: Input)
    requires
        a.name@ == b.name@,
        a.test_param == b.test_param,
    ensures
        greeting_text(a.name@, a.test_param) == greeting_text(b.name@, b.test_param),
{
}

} // verus!
