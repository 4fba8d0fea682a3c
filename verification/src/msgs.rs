//! The request shapes the host decodes and hands to the handlers: raw wire
//! forms (strings for addresses), and the resolved forms that carry the host
//! validator's verdicts where a handler needs them.

use vstd::prelude::*;

use crate::owners::AddrResolution;
use crate::values::Variable;

verus! {

/// The setup request: the initial owner identities, as raw strings.
pub struct InstantiateMsg {
    pub owners: Vec<String>,
}

/// One registration or update: a key and the value to store under it.
pub struct RegisterVariableMsg {
    pub key: String,
    pub value: Variable,
}

impl RegisterVariableMsg {
    pub fn new(key: String, value: Variable) -> (r: Self)
        ensures
            r.key@ == key@,
            r.value == value,
    {
        RegisterVariableMsg { key, value }
    }
}

/// One removal: the key to delete.
pub struct RemoveVariableMsg {
    pub key: String,
}

/// One owner update: identities to add and to remove, as raw strings.
pub struct UpdateOwnerMsg {
    pub add: Option<Vec<String>>,
    pub remove: Option<Vec<String>>,
}

/// Every mutating request, in its raw wire form.
pub enum ExecuteMsg {
    RegisterVariable(RegisterVariableMsg),
    RegisterVariables(Vec<RegisterVariableMsg>),
    UpdateVariable(RegisterVariableMsg),
    UpdateVariables(Vec<RegisterVariableMsg>),
    RemoveVariable(RemoveVariableMsg),
    UpdateOwners(UpdateOwnerMsg),
}

/// Every mutating request, after the host resolved what needed its
/// validator: each stored value travels with the verdict on its address
/// payload, and each owner identity arrives resolved or rejected.
pub enum ResolvedExecuteMsg {
    RegisterVariable(RegisterVariableMsg, bool),
    RegisterVariables(Vec<(RegisterVariableMsg, bool)>),
    UpdateVariable(RegisterVariableMsg, bool),
    UpdateVariables(Vec<(RegisterVariableMsg, bool)>),
    RemoveVariable(RemoveVariableMsg),
    UpdateOwners(Option<Vec<AddrResolution>>, Option<Vec<AddrResolution>>),
}

/// Every read request.
pub enum QueryMsg {
    GetVariable { key: String },
    GetVariables { keys: Vec<String> },
    AllVariables { start_after: Option<String>, limit: Option<u32> },
    Config {},
}

/// The migration request: nothing to carry.
pub struct MigrateMsg {}

} // verus!
