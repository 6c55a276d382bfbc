use vstd::prelude::*;
use crate::types::Address;

verus! {

/// The kind of a text node of a document.
#[derive(Clone, Copy, PartialEq, Eq, Structural, Debug)]
pub enum TextType {
    Paragraph,
    Title,
}

/// A piece of a document: its text, its kind and its children.
#[derive(Debug)]
pub struct TextNode {
    pub text: String,
    pub text_type: TextType,
    pub links: Vec<Address>,
}

/// Start-up hook: there is nothing to set up, so it always succeeds.
pub fn init() -> (r: Result<(), String>)
    ensures
        r is Ok,
{
    Ok(())
}

/// Admission hook for a new agent: every agent is accepted.
pub fn validate_agent(agent_address: Address) -> (r: Result<(), String>)
    ensures
        r is Ok,
{
    Ok(())
}

} // verus!
