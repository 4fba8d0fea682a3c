//! The read-only request handlers: point, batch and paginated lookups, and
//! the configuration query. Reads bypass authorization entirely.

use vstd::prelude::*;

use crate::execute::ContractState;
use crate::msgs::QueryMsg;
use crate::owners::owners_view;
use crate::response::{ContractError, ErrorView};
use crate::state::{
    effective_limit, entries_view, has_entry, has_key, model_wf, page_model, VariableStore,
};
use crate::values::{Addr, Variable, VariableView};

verus! {

/// Looks one variable up.
pub fn qy_get_variable(vars: &VariableStore, key: String) -> (r: Result<Variable, ContractError>)
    requires
        vars.wf(),
    ensures
        match r {
            Ok(v) => has_key(vars@, key@) && has_entry(vars@, key@, v@),
            Err(e) => !has_key(vars@, key@) && e@ == ErrorView::KeyNotFound(key@),
        },
{
    vars.get(&key)
}

/// Looks a batch of keys up: an entry per requested key, in ascending key
/// order with no extras, or `KeyNotFound` naming the first absent key.
pub fn qy_get_variables(vars: &VariableStore, keys: Vec<String>) -> (r: Result<
    Vec<(String, Variable)>,
    ContractError,
>)
    requires
        vars.wf(),
    ensures
        match r {
            Ok(out) => {
                &&& model_wf(entries_view(out@))
                &&& forall|j: int| 0 <= j < keys@.len() ==> has_key(vars@, (#[trigger] keys@[j])@)
                &&& forall|k2: Seq<char>|
                    #[trigger] has_key(entries_view(out@), k2) <==> exists|j: int|
                        0 <= j < keys@.len() && (#[trigger] keys@[j])@ == k2
                &&& forall|k2: Seq<char>, v2: VariableView|
                    #[trigger] has_entry(entries_view(out@), k2, v2) ==> has_entry(vars@, k2, v2)
            },
            Err(e) => exists|j: int|
                {
                    &&& 0 <= j < keys@.len()
                    &&& e@ == ErrorView::KeyNotFound((#[trigger] keys@[j])@)
                    &&& !has_key(vars@, keys@[j]@)
                    &&& forall|m: int| 0 <= m < j ==> has_key(vars@, (#[trigger] keys@[m])@)
                },
        },
{
    match vars.get_many(&keys) {
        Ok(out) => Ok(out.into_entries()),
        Err(e) => Err(e),
    }
}

/// The page of entries strictly after the cursor, in ascending key order,
/// capped at the effective limit.
pub fn qy_get_all_variables(
    vars: &VariableStore,
    start_after: Option<String>,
    limit: Option<u32>,
) -> (r: Vec<(String, Variable)>)
    requires
        vars.wf(),
    ensures
        entries_view(r@) == page_model(
            vars@,
            match start_after {
                Some(s) => Some(s@),
                None => None,
            },
            effective_limit(limit),
        ),
{
    vars.list(&start_after, limit)
}

/// The reply to a read request.
pub enum QueryReply {
    Variable(Variable),
    Variables(Vec<(String, Variable)>),
    AllVariables(Vec<(String, Variable)>),
    Config(Vec<Addr>),
}

/// Handles one read request, with no authorization check at all.
pub fn query(state: &ContractState, msg: QueryMsg) -> (r: Result<QueryReply, ContractError>)
    requires
        state.wf(),
    ensures
        match msg {
            QueryMsg::GetVariable { key } => match r {
                Ok(reply) => reply matches QueryReply::Variable(v) && has_entry(
                    state.variables@,
                    key@,
                    v@,
                ),
                Err(e) => !has_key(state.variables@, key@) && e@ == ErrorView::KeyNotFound(key@),
            },
            QueryMsg::GetVariables { keys } => match r {
                Ok(reply) => reply matches QueryReply::Variables(out) && {
                    &&& model_wf(entries_view(out@))
                    &&& forall|k2: Seq<char>|
                        #[trigger] has_key(entries_view(out@), k2) <==> exists|j: int|
                            0 <= j < keys@.len() && (#[trigger] keys@[j])@ == k2
                    &&& forall|k2: Seq<char>, v2: VariableView|
                        #[trigger] has_entry(entries_view(out@), k2, v2) ==> has_entry(
                            state.variables@,
                            k2,
                            v2,
                        )
                },
                Err(e) => exists|j: int|
                    {
                        &&& 0 <= j < keys@.len()
                        &&& e@ == ErrorView::KeyNotFound((#[trigger] keys@[j])@)
                        &&& !has_key(state.variables@, keys@[j]@)
                    },
            },
            QueryMsg::AllVariables { start_after, limit } => r matches Ok(reply)
                && reply matches QueryReply::AllVariables(out) && entries_view(out@) == page_model(
                state.variables@,
                match start_after {
                    Some(s) => Some(s@),
                    None => None,
                },
                effective_limit(limit),
            ),
            QueryMsg::Config {  } => r matches Ok(reply) && reply matches QueryReply::Config(out)
                && owners_view(out@) == state.config@,
        },
{
    match msg {
        QueryMsg::GetVariable { key } => match qy_get_variable(&state.variables, key) {
            Ok(v) => Ok(QueryReply::Variable(v)),
            Err(e) => Err(e),
        },
        QueryMsg::GetVariables { keys } => match qy_get_variables(&state.variables, keys) {
            Ok(out) => Ok(QueryReply::Variables(out)),
            Err(e) => Err(e),
        },
        QueryMsg::AllVariables { start_after, limit } => Ok(
            QueryReply::AllVariables(qy_get_all_variables(&state.variables, start_after, limit)),
        ),
        QueryMsg::Config {  } => Ok(QueryReply::Config(state.config.owner_list())),
    }
}

} // verus!
