//! The provider variant of the store: registration and removal only (no
//! in-place update), with its own attribute wording, over the same state.

use vstd::prelude::*;

use crate::execute::{spec_register_var, spec_remove_var, ContractState};
use crate::msgs::{MigrateMsg, RegisterVariableMsg, RemoveVariableMsg};
use crate::owners::{
    is_owner, opt_res_view, run_update_owner_msg, spec_update_owners, AddrResolution,
};
use crate::response::{ContractError, ContractResponse, ErrorView, Response};
use crate::state::{lemma_entry_value, value_of, StoreModel, VariableStore};
use crate::values::{spec_render, VariableView};

verus! {

use vstd::string::StringExecFns;

pub use crate::execute::instantiate;
pub use crate::query::query;

/// Every mutating request the provider accepts, in resolved form.
pub enum ProviderExecuteMsg {
    RegisterVariable(RegisterVariableMsg, bool),
    RemoveVariable(RemoveVariableMsg),
    UpdateOwners(Option<Vec<AddrResolution>>, Option<Vec<AddrResolution>>),
}

/// Registers one variable; the attributes name the provider's action.
pub fn run_register_variable(
    vars: &mut VariableStore,
    msg: RegisterVariableMsg,
    addr_ok: bool,
) -> (r: ContractResponse)
    requires
        old(vars).wf(),
    ensures
        final (vars).wf(),
        match r {
            Ok(resp) => {
                &&& spec_register_var(old(vars)@, msg.key@, msg.value@, addr_ok) == Ok::<
                    StoreModel,
                    ErrorView,
                >(final (vars)@)
                &&& resp@ == seq![
                    ("action"@, "register_address"@),
                    ("key"@, msg.key@),
                    ("value"@, spec_render(msg.value@)),
                ]
            },
            Err(e) => {
                &&& spec_register_var(old(vars)@, msg.key@, msg.value@, addr_ok) == Err::<
                    StoreModel,
                    ErrorView,
                >(e@)
                &&& final (vars)@ == old(vars)@
            },
        },
{
    let RegisterVariableMsg { key, value } = msg;
    match vars.get(&key) {
        Ok(existing) => {
            proof {
                lemma_entry_value(vars@, key@, existing@);
            }
            return Err(ContractError::KeyAlreadyRegistered { key, value: existing });
        },
        Err(_) => {},
    }
    let rendered = value.render();
    let validated = match value.validate(addr_ok) {
        Ok(v) => v,
        Err(e) => {
            return Err(e);
        },
    };
    match vars.register(key.clone(), validated) {
        Ok(_) => {},
        Err(e) => {
            proof {
                assert(false);
            }
            return Err(e);
        },
    }
    let resp = Response::new().add_attribute("action", "register_address".to_owned())
        .add_attribute("key", key).add_attribute("value", rendered);
    proof {
        assert(resp@ =~= seq![
            ("action"@, "register_address"@),
            ("key"@, msg.key@),
            ("value"@, spec_render(msg.value@)),
        ]);
    }
    Ok(resp)
}

/// Removes one variable; the attributes name the provider's action and carry
/// the removed value.
pub fn run_remove_variable(vars: &mut VariableStore, msg: RemoveVariableMsg) -> (r:
    ContractResponse)
    requires
        old(vars).wf(),
    ensures
        final (vars).wf(),
        match r {
            Ok(resp) => {
                &&& spec_remove_var(old(vars)@, msg.key@) == Ok::<_, ErrorView>((
                    final (vars)@,
                    value_of(old(vars)@, msg.key@),
                ))
                &&& resp@ == seq![
                    ("action"@, "remove_address"@),
                    ("key"@, msg.key@),
                    ("value"@, spec_render(value_of(old(vars)@, msg.key@))),
                ]
            },
            Err(e) => {
                &&& spec_remove_var(old(vars)@, msg.key@) == Err::<
                    (StoreModel, VariableView),
                    ErrorView,
                >(e@)
                &&& final (vars)@ == old(vars)@
            },
        },
{
    let removed = match vars.remove(&msg.key) {
        Ok(v) => v,
        Err(e) => {
            return Err(e);
        },
    };
    proof {
        lemma_entry_value(old(vars)@, msg.key@, removed@);
    }
    let rendered = removed.render();
    let resp = Response::new().add_attribute("action", "remove_address".to_owned()).add_attribute(
        "key",
        msg.key,
    ).add_attribute("value", rendered);
    proof {
        assert(resp@ =~= seq![
            ("action"@, "remove_address"@),
            ("key"@, msg.key@),
            ("value"@, spec_render(value_of(old(vars)@, msg.key@))),
        ]);
    }
    Ok(resp)
}

/// Handles one mutating provider request: owner check, then dispatch.
pub fn execute(
    state: &mut ContractState,
    sender: &crate::values::Addr,
    msg: ProviderExecuteMsg,
) -> (r: ContractResponse)
    requires
        old(state).wf(),
    ensures
        final (state).wf(),
        !is_owner(old(state).config@, sender@) ==> {
            &&& r matches Err(e) && e@ == ErrorView::Unauthorized(sender@)
            &&& final (state).config@ == old(state).config@
            &&& final (state).variables@ == old(state).variables@
        },
        is_owner(old(state).config@, sender@) ==> match msg {
            ProviderExecuteMsg::RegisterVariable(m, ok) => {
                &&& final (state).config@ == old(state).config@
                &&& match r {
                    Ok(resp) => spec_register_var(old(state).variables@, m.key@, m.value@, ok)
                        == Ok::<StoreModel, ErrorView>(final (state).variables@),
                    Err(e) => spec_register_var(old(state).variables@, m.key@, m.value@, ok)
                        == Err::<StoreModel, ErrorView>(e@) && final (state).variables@ == old(
                        state,
                    ).variables@,
                }
            },
            ProviderExecuteMsg::RemoveVariable(m) => {
                &&& final (state).config@ == old(state).config@
                &&& match r {
                    Ok(resp) => spec_remove_var(old(state).variables@, m.key@) == Ok::<
                        _,
                        ErrorView,
                    >((final (state).variables@, value_of(old(state).variables@, m.key@))),
                    Err(e) => spec_remove_var(old(state).variables@, m.key@) == Err::<
                        (StoreModel, VariableView),
                        ErrorView,
                    >(e@) && final (state).variables@ == old(state).variables@,
                }
            },
            ProviderExecuteMsg::UpdateOwners(add, remove) => {
                &&& final (state).variables@ == old(state).variables@
                &&& match r {
                    Ok(resp) => spec_update_owners(
                        old(state).config@,
                        opt_res_view(add),
                        opt_res_view(remove),
                    ) == Ok::<_, ErrorView>((final (state).config@, resp@.skip(1))),
                    Err(e) => spec_update_owners(
                        old(state).config@,
                        opt_res_view(add),
                        opt_res_view(remove),
                    ) == Err::<(Seq<Seq<char>>, Seq<(Seq<char>, Seq<char>)>), ErrorView>(e@)
                        && final (state).config@ == old(state).config@,
                }
            },
        },
{
    match state.config.validate_owner(sender) {
        Ok(_) => {},
        Err(e) => {
            return Err(e);
        },
    }
    match msg {
        ProviderExecuteMsg::RegisterVariable(m, ok) => run_register_variable(
            &mut state.variables,
            m,
            ok,
        ),
        ProviderExecuteMsg::RemoveVariable(m) => run_remove_variable(&mut state.variables, m),
        ProviderExecuteMsg::UpdateOwners(add, remove) => run_update_owner_msg(
            &mut state.config,
            add,
            remove,
        ),
    }
}

/// Migration carries nothing and changes nothing.
pub fn migrate(_msg: MigrateMsg) -> (r: ContractResponse)
    ensures
        r matches Ok(resp) && resp@ == Seq::<(Seq<char>, Seq<char>)>::empty(),
{
    Ok(Response::new())
}

} // verus!
