use variable_manager::execute::{execute, instantiate, ContractState};
use variable_manager::msgs::{QueryMsg, RegisterVariableMsg, RemoveVariableMsg, ResolvedExecuteMsg};
use variable_manager::owners::AddrResolution;
use variable_manager::query::{query, QueryReply};
use variable_manager::response::{ContractError, Response};
use variable_manager::values::{Addr, Decimal, Variable};

struct Def {
    pub owner: Addr,
}

fn addr(s: &str) -> Addr {
    Addr::new(s.to_string())
}

fn resolved(a: &Addr) -> AddrResolution {
    AddrResolution::Resolved(addr(a.as_str()))
}

fn startup() -> (ContractState, Def) {
    let owner = addr("owner");
    let state = instantiate(vec![resolved(&owner)]).unwrap();
    (state, Def { owner })
}

fn register_variable(
    state: &mut ContractState,
    sender: &Addr,
    key: &str,
    variable: &Variable,
) -> Result<Response, ContractError> {
    execute(
        state,
        sender,
        ResolvedExecuteMsg::RegisterVariable(
            RegisterVariableMsg {
                key: key.to_string(),
                value: variable.clone(),
            },
            true,
        ),
    )
}

fn register_variables(
    state: &mut ContractState,
    sender: &Addr,
    keys_values: Vec<(&str, &Variable)>,
) -> Result<Response, ContractError> {
    execute(
        state,
        sender,
        ResolvedExecuteMsg::RegisterVariables(
            keys_values
                .into_iter()
                .map(|(k, v)| {
                    (
                        RegisterVariableMsg {
                            key: k.to_string(),
                            value: v.clone(),
                        },
                        true,
                    )
                })
                .collect(),
        ),
    )
}

fn remove_variable(
    state: &mut ContractState,
    sender: &Addr,
    key: &str,
) -> Result<Response, ContractError> {
    execute(
        state,
        sender,
        ResolvedExecuteMsg::RemoveVariable(RemoveVariableMsg {
            key: key.to_string(),
        }),
    )
}

fn update_variable(
    state: &mut ContractState,
    sender: &Addr,
    key: &str,
    variable: &Variable,
) -> Result<Response, ContractError> {
    execute(
        state,
        sender,
        ResolvedExecuteMsg::UpdateVariable(
            RegisterVariableMsg {
                key: key.to_string(),
                value: variable.clone(),
            },
            true,
        ),
    )
}

fn update_variables(
    state: &mut ContractState,
    sender: &Addr,
    keys_values: Vec<(&str, &Variable)>,
) -> Result<Response, ContractError> {
    execute(
        state,
        sender,
        ResolvedExecuteMsg::UpdateVariables(
            keys_values
                .into_iter()
                .map(|(k, v)| {
                    (
                        RegisterVariableMsg {
                            key: k.to_string(),
                            value: v.clone(),
                        },
                        true,
                    )
                })
                .collect(),
        ),
    )
}

fn update_owners(
    state: &mut ContractState,
    sender: &Addr,
    add: Option<&[&Addr]>,
    remove: Option<&[&Addr]>,
) -> Result<Response, ContractError> {
    execute(
        state,
        sender,
        ResolvedExecuteMsg::UpdateOwners(
            add.map(|add| add.iter().map(|a| resolved(a)).collect()),
            remove.map(|remove| remove.iter().map(|a| resolved(a)).collect()),
        ),
    )
}

fn qy_config(state: &ContractState) -> Vec<Addr> {
    match query(state, QueryMsg::Config {}).unwrap() {
        QueryReply::Config(owners) => owners,
        _ => panic!("unexpected reply"),
    }
}

fn qy_variable(state: &ContractState, key: &str) -> Result<Variable, ContractError> {
    match query(
        state,
        QueryMsg::GetVariable {
            key: key.to_string(),
        },
    ) {
        Ok(QueryReply::Variable(v)) => Ok(v),
        Ok(_) => panic!("unexpected reply"),
        Err(e) => Err(e),
    }
}

fn qy_variables(
    state: &ContractState,
    keys: &[&str],
) -> Result<Vec<(String, Variable)>, ContractError> {
    match query(
        state,
        QueryMsg::GetVariables {
            keys: keys.iter().map(|k| k.to_string()).collect(),
        },
    ) {
        Ok(QueryReply::Variables(out)) => Ok(out),
        Ok(_) => panic!("unexpected reply"),
        Err(e) => Err(e),
    }
}

fn qy_all_variables(
    state: &ContractState,
    start_after: Option<&str>,
    limit: Option<u32>,
) -> Vec<(String, Variable)> {
    match query(
        state,
        QueryMsg::AllVariables {
            start_after: start_after.map(|s| s.to_string()),
            limit,
        },
    )
    .unwrap()
    {
        QueryReply::AllVariables(out) => out,
        _ => panic!("unexpected reply"),
    }
}

fn assert_err_contains(r: Result<Response, ContractError>, needle: &str) {
    let e = r.unwrap_err();
    let msg = e.message();
    assert!(
        msg.contains(needle),
        "message {:?} does not contain {:?}",
        msg,
        needle
    );
}

#[test]
fn integration() {
    let (mut state, mut def) = startup();

    let mut var_1 = Variable::StringValue("var_1".to_string());
    let mut var_2 = Variable::UnsignedInt128(100u128);
    let mut var_3 = Variable::BinaryValue(vec![1, 2, 3, 4]);
    let var_4 = Variable::DecimalValue(Decimal::new(1_500_000_000_000_000_000));

    let random_addr = addr("random_addr");

    // --- Err Invalid owner ---
    {
        assert_err_contains(
            register_variable(&mut state, &random_addr, "var_1", &var_1),
            "not an owner",
        );
    }

    // --- Ok  register variable ---
    {
        register_variable(&mut state, &def.owner, "var_1", &var_1).unwrap();
        register_variable(&mut state, &def.owner, "var_2", &var_2).unwrap();
    }

    // --- Ok  register variables ---
    {
        register_variables(
            &mut state,
            &def.owner,
            vec![("var_3", &var_3), ("var_4", &var_4)],
        )
        .unwrap();
    }

    // --- Err variable already registered ---
    {
        assert_err_contains(
            register_variable(&mut state, &def.owner, "var_1", &var_1),
            "already registered",
        );
        assert_err_contains(
            register_variables(
                &mut state,
                &def.owner,
                vec![("var_3", &var_3), ("var_4", &var_4)],
            ),
            "already registered",
        );
    }

    // --- Ok  remove variable ---
    {
        remove_variable(&mut state, &def.owner, "var_1").unwrap();
    }

    // --- Err remove unexisting variable ---
    {
        assert_err_contains(
            remove_variable(&mut state, &def.owner, "var_5"),
            "Key not found: var_5",
        );
    }

    // --- OK  update variable ---
    {
        register_variable(&mut state, &def.owner, "var_1", &var_1).unwrap();
        var_1 = Variable::StringValue("var_1_updated".to_string());
        update_variable(&mut state, &def.owner, "var_1", &var_1).unwrap();
    }

    // --- Err update unexisting variable ---
    {
        assert_err_contains(
            update_variable(&mut state, &def.owner, "var_10", &var_1),
            "Key not found: var_10",
        );
    }

    // --- OK  update variables ---
    {
        var_2 = Variable::UnsignedInt128(200u128);
        var_3 = Variable::BinaryValue(vec![4, 3, 2, 1]);
        update_variables(
            &mut state,
            &def.owner,
            vec![("var_2", &var_2), ("var_3", &var_3)],
        )
        .unwrap();
    }

    // --- Err update unexisting variables ---
    {
        assert_err_contains(
            update_variables(
                &mut state,
                &def.owner,
                vec![("var_20", &var_2), ("var_3", &var_3)],
            ),
            "Key not found: var_20",
        );
    }

    // --- Err update owner ---
    {
        // sanity check
        assert_err_contains(
            update_owners(&mut state, &random_addr, None, None),
            "not an owner",
        );

        assert_err_contains(
            update_owners(&mut state, &def.owner, None, Some(&[&def.owner.clone()])),
            "Invalid 0 owners. Needed at least 1",
        );
        assert_err_contains(
            update_owners(&mut state, &def.owner, Some(&[&def.owner.clone()]), None),
            "is alredy a owner",
        );
        let old_owner = def.owner.clone();
        def.owner = addr("new_owner");
        update_owners(
            &mut state,
            &old_owner,
            Some(&[&def.owner.clone()]),
            Some(&[&old_owner.clone()]),
        )
        .unwrap();
    }

    // --- Assert config ---
    {
        let config = qy_config(&state);
        assert_eq!(config.len(), 1);
        assert_eq!(config[0], def.owner);
    }

    // --- Assert variables ---
    {
        assert_eq!(var_1, qy_variable(&state, "var_1").unwrap());
        assert_eq!(
            vec![
                ("var_1".to_string(), var_1.clone()),
                ("var_2".to_string(), var_2.clone())
            ],
            qy_variables(&state, &["var_1", "var_2"]).unwrap()
        );
        assert_eq!(
            vec![
                ("var_1".to_string(), var_1.clone()),
                ("var_2".to_string(), var_2.clone())
            ],
            qy_all_variables(&state, None, Some(2))
        );
        assert_eq!(
            vec![
                ("var_3".to_string(), var_3.clone()),
                ("var_4".to_string(), var_4.clone())
            ],
            qy_all_variables(&state, Some("var_2"), None)
        );
    }
}
