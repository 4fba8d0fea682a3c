use variable_manager::codec::{deserialize, serialize};
use variable_manager::execute::{
    run_register_variable, run_register_variables, run_remove_variable, run_update_variable,
};
use variable_manager::msgs::{RegisterVariableMsg, RemoveVariableMsg};
use variable_manager::owners::{run_update_owner_msg, AddrResolution};
use variable_manager::query::{qy_get_all_variables, qy_get_variable, qy_get_variables};
use variable_manager::response::ContractError;
use variable_manager::state::VariableStore;
use variable_manager::values::{Addr, Decimal, VarKind, Variable};

fn addr(s: &str) -> Addr {
    Addr::new(s.to_string())
}

fn resolved(s: &str) -> AddrResolution {
    AddrResolution::Resolved(addr(s))
}

fn msg(key: &str, value: Variable) -> RegisterVariableMsg {
    RegisterVariableMsg {
        key: key.to_string(),
        value,
    }
}

fn sample_values() -> Vec<Variable> {
    vec![
        Variable::StringValue("some text".to_string()),
        Variable::AddressValue(addr("owner1")),
        Variable::UnsignedInt128(340_282_366_920_938_463_463_374_607_431_768_211_455u128),
        Variable::UnsignedInt64(18_446_744_073_709_551_615u64),
        Variable::DecimalValue(Decimal::new(1_500_000_000_000_000_000)),
        Variable::BinaryValue(vec![0, 1, 2, 255]),
    ]
}

#[test]
fn codec_round_trip_every_kind() {
    for v in sample_values() {
        let bytes = serialize(&v);
        let back = deserialize(&bytes).unwrap();
        assert_eq!(back, v);
    }
    // non-ascii text survives too
    let v = Variable::StringValue("gr\u{00fc}n \u{1f600}".to_string());
    assert_eq!(deserialize(&serialize(&v)).unwrap(), v);
    // the empty string and empty bytes survive
    let v = Variable::StringValue(String::new());
    assert_eq!(deserialize(&serialize(&v)).unwrap(), v);
    let v = Variable::BinaryValue(Vec::new());
    assert_eq!(deserialize(&serialize(&v)).unwrap(), v);
}

#[test]
fn codec_rejects_malformed_bytes() {
    for bad in [
        vec![],
        vec![9],
        vec![0],
        vec![0, 1, 0, 0, 0, 0, 0, 0, 0],
        vec![2, 1, 2, 3],
        vec![3, 1],
        vec![5, 2, 0, 0, 0, 0, 0, 0, 0, 1],
    ] {
        let e = deserialize(&bad).unwrap_err();
        assert!(matches!(e, ContractError::Decode));
        assert_eq!(e.message(), "Invalid binary encoding");
    }
}

#[test]
fn register_then_get_returns_value() {
    let mut vars = VariableStore::new();
    let v = Variable::UnsignedInt64(7);
    run_register_variable(&mut vars, msg("k", v.clone()), true).unwrap();
    assert_eq!(qy_get_variable(&vars, "k".to_string()).unwrap(), v);
}

#[test]
fn duplicate_register_keeps_first_value() {
    let mut vars = VariableStore::new();
    let v1 = Variable::StringValue("first".to_string());
    let v2 = Variable::StringValue("second".to_string());
    run_register_variable(&mut vars, msg("k", v1.clone()), true).unwrap();
    let e = run_register_variable(&mut vars, msg("k", v2), true).unwrap_err();
    match e {
        ContractError::KeyAlreadyRegistered { key, value } => {
            assert_eq!(key, "k");
            assert_eq!(value, v1);
        }
        other => panic!("unexpected error: {:?}", other),
    }
    assert_eq!(qy_get_variable(&vars, "k".to_string()).unwrap(), v1);
}

#[test]
fn update_requires_existing_key() {
    let mut vars = VariableStore::new();
    let e = run_update_variable(&mut vars, msg("k", Variable::UnsignedInt64(1)), true).unwrap_err();
    match e {
        ContractError::KeyNotFound { key } => assert_eq!(key, "k"),
        other => panic!("unexpected error: {:?}", other),
    }
    assert!(qy_get_variable(&vars, "k".to_string()).is_err());
}

#[test]
fn remove_then_get_fails() {
    let mut vars = VariableStore::new();
    run_register_variable(&mut vars, msg("k", Variable::UnsignedInt64(1)), true).unwrap();
    run_remove_variable(
        &mut vars,
        RemoveVariableMsg {
            key: "k".to_string(),
        },
    )
    .unwrap();
    let e = qy_get_variable(&vars, "k".to_string()).unwrap_err();
    match e {
        ContractError::KeyNotFound { key } => assert_eq!(key, "k"),
        other => panic!("unexpected error: {:?}", other),
    }
}

#[test]
fn batch_register_is_atomic() {
    let mut vars = VariableStore::new();
    let v = Variable::UnsignedInt64(1);
    run_register_variable(&mut vars, msg("a", v.clone()), true).unwrap();
    let e = run_register_variables(
        &mut vars,
        &vec![(msg("a", v.clone()), true), (msg("b", v.clone()), true)],
    )
    .unwrap_err();
    assert!(matches!(e, ContractError::KeyAlreadyRegistered { .. }));
    // the second entry must not have been committed
    assert!(qy_get_variable(&vars, "b".to_string()).is_err());
}

#[test]
fn owner_set_may_not_end_empty() {
    let mut config = variable_manager::execute::instantiate(vec![resolved("only_owner")])
        .unwrap()
        .config;
    let e = run_update_owner_msg(&mut config, None, Some(vec![resolved("only_owner")])).unwrap_err();
    assert!(matches!(e, ContractError::EmptyOwnerSet));
    assert_eq!(e.message(), "Invalid 0 owners. Needed at least 1");
    // the registry is unchanged
    assert!(config.is_authorized(&addr("only_owner")));
    assert_eq!(config.owner_count(), 1);
}

#[test]
fn owner_handover_is_atomic() {
    let mut config = variable_manager::execute::instantiate(vec![resolved("owner1")])
        .unwrap()
        .config;
    let resp =
        run_update_owner_msg(&mut config, Some(vec![resolved("owner2")]), Some(vec![resolved(
            "owner1",
        )]))
        .unwrap();
    assert!(!config.is_authorized(&addr("owner1")));
    assert!(config.is_authorized(&addr("owner2")));
    assert_eq!(config.owner_count(), 1);
    let pairs: Vec<(String, String)> = resp
        .attributes
        .into_iter()
        .map(|a| (a.key, a.value))
        .collect();
    assert_eq!(
        pairs,
        vec![
            ("action".to_string(), "update_owners".to_string()),
            ("owner_added".to_string(), "owner2".to_string()),
            ("owner_removed".to_string(), "owner1".to_string()),
        ]
    );
}

#[test]
fn owner_update_rejections() {
    let mut config = variable_manager::execute::instantiate(vec![resolved("owner1")])
        .unwrap()
        .config;
    let e = run_update_owner_msg(&mut config, None, None).unwrap_err();
    assert!(matches!(e, ContractError::InvalidUpdateOwnerMsg));
    assert_eq!(e.message(), "Empty update owner msg");
    let e = run_update_owner_msg(&mut config, Some(vec![resolved("owner1")]), None).unwrap_err();
    assert!(matches!(e, ContractError::IsAlreadyOwner { .. }));
    assert_eq!(e.message(), "Address is alredy a owner: owner1");
    let e = run_update_owner_msg(&mut config, None, Some(vec![resolved("owner2")])).unwrap_err();
    assert!(matches!(e, ContractError::IsNotOwner { .. }));
    assert_eq!(e.message(), "Address is not a owner: owner2");
    let e = run_update_owner_msg(
        &mut config,
        Some(vec![AddrResolution::Invalid("###".to_string())]),
        None,
    )
    .unwrap_err();
    match &e {
        ContractError::InvalidAddress { raw } => assert_eq!(raw, "###"),
        other => panic!("unexpected error: {:?}", other),
    }
    assert_eq!(e.message(), "Invalid address: ###");
    // none of the rejected updates changed anything
    assert_eq!(config.owner_count(), 1);
    assert!(config.is_authorized(&addr("owner1")));
}

#[test]
fn pagination_defaults_and_cap() {
    let mut vars = VariableStore::new();
    // 120 keys in lexicographic order: key_000 .. key_119
    for i in 0..120u32 {
        let key = format!("key_{:03}", i);
        run_register_variable(&mut vars, msg(&key, Variable::UnsignedInt64(i as u64)), true)
            .unwrap();
    }
    // the default page holds thirty entries
    let page = qy_get_all_variables(&vars, None, None);
    assert_eq!(page.len(), 30);
    assert_eq!(page[0].0, "key_000");
    assert_eq!(page[29].0, "key_029");
    // an explicit limit above one hundred is capped
    let page = qy_get_all_variables(&vars, None, Some(500));
    assert_eq!(page.len(), 100);
    // the cursor is an exclusive lower bound
    let page = qy_get_all_variables(&vars, Some("key_117".to_string()), Some(10));
    assert_eq!(
        page.iter().map(|(k, _)| k.clone()).collect::<Vec<_>>(),
        vec!["key_118".to_string(), "key_119".to_string()]
    );
    // a cursor that is itself a stored key is excluded
    let page = qy_get_all_variables(&vars, Some("key_000".to_string()), Some(1));
    assert_eq!(page[0].0, "key_001");
}

#[test]
fn get_many_is_complete_and_names_first_missing() {
    let mut vars = VariableStore::new();
    run_register_variable(&mut vars, msg("k1", Variable::UnsignedInt64(1)), true).unwrap();
    run_register_variable(&mut vars, msg("k2", Variable::UnsignedInt64(2)), true).unwrap();
    let out = qy_get_variables(&vars, vec!["k2".to_string(), "k1".to_string()]).unwrap();
    assert_eq!(
        out,
        vec![
            ("k1".to_string(), Variable::UnsignedInt64(1)),
            ("k2".to_string(), Variable::UnsignedInt64(2)),
        ]
    );
    let e = qy_get_variables(&vars, vec!["k1".to_string(), "kx".to_string(), "ky".to_string()])
        .unwrap_err();
    match e {
        ContractError::KeyNotFound { key } => assert_eq!(key, "kx"),
        other => panic!("unexpected error: {:?}", other),
    }
}

#[test]
fn render_is_exact() {
    assert_eq!(
        Variable::StringValue("hello".to_string()).render(),
        "hello"
    );
    assert_eq!(Variable::AddressValue(addr("owner1")).render(), "owner1");
    assert_eq!(Variable::UnsignedInt128(0).render(), "0");
    assert_eq!(Variable::UnsignedInt128(105).render(), "105");
    assert_eq!(Variable::UnsignedInt64(18_446_744_073_709_551_615).render(), "18446744073709551615");
    assert_eq!(
        Variable::DecimalValue(Decimal::new(1_500_000_000_000_000_000)).render(),
        "1.5"
    );
    assert_eq!(
        Variable::DecimalValue(Decimal::new(2_000_000_000_000_000_000)).render(),
        "2"
    );
    assert_eq!(
        Variable::DecimalValue(Decimal::new(123)).render(),
        "0.000000000000000123"
    );
    assert_eq!(
        Variable::BinaryValue(vec![0x01, 0x02, 0x03, 0x04]).render(),
        "01020304"
    );
    assert_eq!(Variable::BinaryValue(vec![0xde, 0xad]).render(), "dead");
}

#[test]
fn unwrap_accessors_check_the_kind() {
    let s = Variable::StringValue("text".to_string());
    assert_eq!(s.unwrap_string().unwrap(), "text");
    let e = s.unwrap_u64().unwrap_err();
    match e {
        ContractError::TypeMismatch { expected, actual } => {
            assert_eq!(expected, VarKind::U64);
            assert_eq!(actual, VarKind::Str);
        }
        other => panic!("unexpected error: {:?}", other),
    }
    assert_eq!(
        s.unwrap_u64().unwrap_err().message(),
        "Variable is not u64"
    );
    let a = Variable::AddressValue(addr("owner1"));
    assert_eq!(a.unwrap_addr().unwrap(), addr("owner1"));
    assert!(a.unwrap_string().is_err());
    let u = Variable::UnsignedInt128(9);
    assert_eq!(u.unwrap_uint128().unwrap(), 9);
    let d = Variable::DecimalValue(Decimal::new(5));
    assert_eq!(d.unwrap_decimal().unwrap().atomics(), 5);
    let b = Variable::BinaryValue(vec![1, 2]);
    assert_eq!(b.unwrap_binary().unwrap(), vec![1, 2]);
    assert!(b.unwrap_decimal().is_err());
}

#[test]
fn validate_checks_only_addresses() {
    let v = Variable::UnsignedInt64(3);
    assert_eq!(v.clone().validate(false).unwrap(), v);
    let a = Variable::AddressValue(addr("good"));
    assert_eq!(a.clone().validate(true).unwrap(), a);
    let e = a.validate(false).unwrap_err();
    match &e {
        ContractError::InvalidAddress { raw } => assert_eq!(raw, "good"),
        other => panic!("unexpected error: {:?}", other),
    }
}

#[test]
fn reads_need_no_authorization() {
    let owner = addr("owner1");
    let mut state =
        variable_manager::execute::instantiate(vec![resolved("owner1")]).unwrap();
    variable_manager::execute::execute(
        &mut state,
        &owner,
        variable_manager::msgs::ResolvedExecuteMsg::RegisterVariable(
            msg("k", Variable::UnsignedInt64(4)),
            true,
        ),
    )
    .unwrap();
    // a non-owner may read...
    let got = qy_get_variable(&state.variables, "k".to_string()).unwrap();
    assert_eq!(got, Variable::UnsignedInt64(4));
    // ...but may not write, and the store stays as it was
    let stranger = addr("stranger");
    let e = variable_manager::execute::execute(
        &mut state,
        &stranger,
        variable_manager::msgs::ResolvedExecuteMsg::RemoveVariable(RemoveVariableMsg {
            key: "k".to_string(),
        }),
    )
    .unwrap_err();
    match &e {
        ContractError::Unauthorized { addr } => assert_eq!(addr.as_str(), "stranger"),
        other => panic!("unexpected error: {:?}", other),
    }
    assert_eq!(e.message(), "stranger is not an owner");
    assert!(qy_get_variable(&state.variables, "k".to_string()).is_ok());
}

#[test]
fn provider_variant_registers_and_removes() {
    let owner = addr("owner1");
    let mut state = variable_manager::provider::instantiate(vec![resolved("owner1")]).unwrap();
    let resp = variable_manager::provider::execute(
        &mut state,
        &owner,
        variable_manager::provider::ProviderExecuteMsg::RegisterVariable(
            msg("k", Variable::UnsignedInt64(4)),
            true,
        ),
    )
    .unwrap();
    assert_eq!(resp.attributes[0].value, "register_address");
    let resp = variable_manager::provider::execute(
        &mut state,
        &owner,
        variable_manager::provider::ProviderExecuteMsg::RemoveVariable(RemoveVariableMsg {
            key: "k".to_string(),
        }),
    )
    .unwrap();
    assert_eq!(resp.attributes[0].value, "remove_address");
    assert_eq!(resp.attributes[2].value, "4");
    assert!(qy_get_variable(&state.variables, "k".to_string()).is_err());
    let r = variable_manager::provider::migrate(variable_manager::msgs::MigrateMsg {}).unwrap();
    assert!(r.attributes.is_empty());
}

#[test]
fn register_attributes_are_ordered() {
    let mut vars = VariableStore::new();
    let resp = run_register_variable(&mut vars, msg("k", Variable::UnsignedInt64(7)), true)
        .unwrap();
    let pairs: Vec<(String, String)> = resp
        .attributes
        .into_iter()
        .map(|a| (a.key, a.value))
        .collect();
    assert_eq!(
        pairs,
        vec![
            ("action".to_string(), "register_variable".to_string()),
            ("key".to_string(), "k".to_string()),
            ("value".to_string(), "7".to_string()),
        ]
    );
}

#[test]
fn instantiate_rejects_an_empty_owner_set() {
    let e = variable_manager::execute::instantiate(vec![]).unwrap_err();
    assert!(matches!(e, ContractError::EmptyOwnerSet));
    let e = variable_manager::execute::instantiate(vec![
        resolved("owner1"),
        resolved("owner1"),
    ])
    .unwrap_err();
    assert!(matches!(e, ContractError::IsAlreadyOwner { .. }));
}

#[test]
fn message_constructor_keeps_fields() {
    let m = RegisterVariableMsg::new("k".to_string(), Variable::UnsignedInt64(1));
    assert_eq!(m.key, "k");
    assert_eq!(m.value, Variable::UnsignedInt64(1));
}

#[test]
fn codec_layout_is_tag_then_little_endian_payload() {
    // one tag byte, then the eight little-endian bytes of the integer
    assert_eq!(
        serialize(&Variable::UnsignedInt64(1)),
        vec![3, 1, 0, 0, 0, 0, 0, 0, 0]
    );
    // one tag byte, a character count, then one code point per character
    assert_eq!(
        serialize(&Variable::StringValue("AB".to_string())),
        vec![0, 2, 0, 0, 0, 0, 0, 0, 0, 0x41, 0, 0, 0, 0x42, 0, 0, 0]
    );
    // one tag byte, a byte count, then the raw bytes
    assert_eq!(
        serialize(&Variable::BinaryValue(vec![7, 8])),
        vec![5, 2, 0, 0, 0, 0, 0, 0, 0, 7, 8]
    );
}

#[test]
fn pagination_past_the_last_key_is_empty() {
    let mut vars = VariableStore::new();
    run_register_variable(&mut vars, msg("a", Variable::UnsignedInt64(0)), true).unwrap();
    let page = qy_get_all_variables(&vars, Some("z".to_string()), None);
    assert!(page.is_empty());
    let empty = VariableStore::new();
    assert!(qy_get_all_variables(&empty, None, None).is_empty());
}
