//! The mutating request handlers: registration, update, removal, batches,
//! and owner updates, each all-or-nothing, plus the authorizing dispatcher.

use vstd::prelude::*;

use crate::msgs::{RegisterVariableMsg, RemoveVariableMsg, ResolvedExecuteMsg};
use crate::owners::{
    add_owners, is_owner, lemma_prepend_attrs_snoc2, opt_res_view, prepend_attrs,
    run_update_owner_msg, spec_update_owners, AddrResolution, Config,
};
use crate::response::{attrs_view, ContractError, ContractResponse, ErrorView, Response};
use crate::state::{
    has_key, insert_model, lemma_entry_value, model_wf, remove_model, update_model, value_of,
    StoreModel, VariableStore,
};
use crate::values::{spec_render, Variable, VariableView};

verus! {

use vstd::string::StringExecFns;

/// The whole state of one store instance: its owner registry and its
/// variables.
#[derive(Debug)]
pub struct ContractState {
    pub config: Config,
    pub variables: VariableStore,
}

impl ContractState {
    pub open spec fn wf(&self) -> bool {
        self.config.wf() && self.variables.wf()
    }
}

/// What one registration does to the store: a present key fails, carrying
/// the stored value; an address value the host rejected fails; otherwise the
/// value is inserted at its ordered position.
pub open spec fn spec_register_var(
    s: StoreModel,
    key: Seq<char>,
    value: VariableView,
    addr_ok: bool,
) -> Result<StoreModel, ErrorView> {
    if has_key(s, key) {
        Err(ErrorView::KeyAlreadyRegistered(key, value_of(s, key)))
    } else if value matches VariableView::AddressValue(a) && !addr_ok {
        Err(ErrorView::InvalidAddress(value->AddressValue_0))
    } else {
        Ok(insert_model(s, key, value))
    }
}

/// What one update does to the store: an address value the host rejected
/// fails, an absent key fails, otherwise the stored value is replaced whole.
pub open spec fn spec_update_var(
    s: StoreModel,
    key: Seq<char>,
    value: VariableView,
    addr_ok: bool,
) -> Result<StoreModel, ErrorView> {
    if value matches VariableView::AddressValue(a) && !addr_ok {
        Err(ErrorView::InvalidAddress(value->AddressValue_0))
    } else if !has_key(s, key) {
        Err(ErrorView::KeyNotFound(key))
    } else {
        Ok(update_model(s, key, value))
    }
}

/// What one removal does to the store: an absent key fails, otherwise the
/// entry goes and its value is reported.
pub open spec fn spec_remove_var(s: StoreModel, key: Seq<char>) -> Result<
    (StoreModel, VariableView),
    ErrorView,
> {
    if !has_key(s, key) {
        Err(ErrorView::KeyNotFound(key))
    } else {
        Ok((remove_model(s, key), value_of(s, key)))
    }
}

/// Registers one variable. On success the attributes name the action, the
/// key and the rendered value.
pub fn run_register_variable(
    vars: &mut VariableStore,
    msg: RegisterVariableMsg,
    addr_ok: bool,
) -> (r: ContractResponse)
    requires
        old(vars).wf(),
    ensures
        final (vars).wf(),
        match r {
            Ok(resp) => {
                &&& spec_register_var(old(vars)@, msg.key@, msg.value@, addr_ok) == Ok::<
                    StoreModel,
                    ErrorView,
                >(final (vars)@)
                &&& resp@ == seq![
                    ("action"@, "register_variable"@),
                    ("key"@, msg.key@),
                    ("value"@, spec_render(msg.value@)),
                ]
            },
            Err(e) => {
                &&& spec_register_var(old(vars)@, msg.key@, msg.value@, addr_ok) == Err::<
                    StoreModel,
                    ErrorView,
                >(e@)
                &&& final (vars)@ == old(vars)@
            },
        },
{
    let RegisterVariableMsg { key, value } = msg;
    match vars.get(&key) {
        Ok(existing) => {
            proof {
                lemma_entry_value(vars@, key@, existing@);
            }
            return Err(ContractError::KeyAlreadyRegistered { key, value: existing });
        },
        Err(_) => {},
    }
    let rendered = value.render();
    let validated = match value.validate(addr_ok) {
        Ok(v) => v,
        Err(e) => {
            return Err(e);
        },
    };
    match vars.register(key.clone(), validated) {
        Ok(_) => {},
        Err(e) => {
            proof {
                assert(false);
            }
            return Err(e);
        },
    }
    let resp = Response::new().add_attribute("action", "register_variable".to_owned())
        .add_attribute("key", key).add_attribute("value", rendered);
    proof {
        assert(resp@ =~= seq![
            ("action"@, "register_variable"@),
            ("key"@, msg.key@),
            ("value"@, spec_render(msg.value@)),
        ]);
    }
    Ok(resp)
}

/// The model of a resolved batch entry list.
pub open spec fn batch_view(s: Seq<(RegisterVariableMsg, bool)>) -> Seq<
    ((Seq<char>, VariableView), bool),
> {
    Seq::new(s.len(), |i: int| ((s[i].0.key@, s[i].0.value@), s[i].1))
}

/// Length and indexing of `batch_view`.
pub proof fn lemma_batch_view(s: Seq<(RegisterVariableMsg, bool)>)
    ensures
        batch_view(s).len() == s.len(),
        forall|i: int|
            0 <= i < s.len() ==> #[trigger] batch_view(s)[i] == (
                (s[i].0.key@, s[i].0.value@),
                s[i].1,
            ),
{
}

/// What a batch registration does: each entry in order, the first failure
/// aborting the whole batch; on success one `key` and one `value` attribute
/// per entry, in order.
pub open spec fn spec_register_batch(
    s: StoreModel,
    entries: Seq<((Seq<char>, VariableView), bool)>,
) -> Result<(StoreModel, Seq<(Seq<char>, Seq<char>)>), ErrorView>
    decreases entries.len(),
{
    if entries.len() == 0 {
        Ok((s, Seq::empty()))
    } else {
        let key = entries[0].0.0;
        let value = entries[0].0.1;
        match spec_register_var(s, key, value, entries[0].1) {
            Ok(s2) => match spec_register_batch(s2, entries.drop_first()) {
                Ok(p) => Ok(
                    (p.0, seq![("key"@, key), ("value"@, spec_render(value))] + p.1),
                ),
                Err(e) => Err(e),
            },
            Err(e) => Err(e),
        }
    }
}

/// What a batch update does, entry by entry, first failure aborting all.
pub open spec fn spec_update_batch(
    s: StoreModel,
    entries: Seq<((Seq<char>, VariableView), bool)>,
) -> Result<(StoreModel, Seq<(Seq<char>, Seq<char>)>), ErrorView>
    decreases entries.len(),
{
    if entries.len() == 0 {
        Ok((s, Seq::empty()))
    } else {
        let key = entries[0].0.0;
        let value = entries[0].0.1;
        match spec_update_var(s, key, value, entries[0].1) {
            Ok(s2) => match spec_update_batch(s2, entries.drop_first()) {
                Ok(p) => Ok(
                    (p.0, seq![("key"@, key), ("value"@, spec_render(value))] + p.1),
                ),
                Err(e) => Err(e),
            },
            Err(e) => Err(e),
        }
    }
}

/// Registers a batch of variables, all or nothing: the first failure leaves
/// the store exactly as it was.
pub fn run_register_variables(
    vars: &mut VariableStore,
    entries: &Vec<(RegisterVariableMsg, bool)>,
) -> (r: ContractResponse)
    requires
        old(vars).wf(),
    ensures
        final (vars).wf(),
        match r {
            Ok(resp) => {
                &&& spec_register_batch(old(vars)@, batch_view(entries@)) == Ok::<
                    _,
                    ErrorView,
                >((final (vars)@, resp@.skip(1)))
                &&& resp@.len() >= 1
                &&& resp@[0] == ("action"@, "register_variable"@)
            },
            Err(e) => {
                &&& spec_register_batch(old(vars)@, batch_view(entries@)) == Err::<
                    (StoreModel, Seq<(Seq<char>, Seq<char>)>),
                    ErrorView,
                >(e@)
                &&& final (vars)@ == old(vars)@
            },
        },
{
    let ghost pre = vars@;
    let ghost full = batch_view(entries@);
    proof {
        lemma_batch_view(entries@);
    }
    let mut work = vars.snapshot();
    let mut attrs: Vec<crate::response::Attribute> = Vec::new();
    let mut i: usize = 0;
    proof {
        assert(attrs_view(attrs@) =~= Seq::<(Seq<char>, Seq<char>)>::empty());
        assert(full.skip(0) =~= full);
        assert(prepend_attrs(attrs_view(attrs@), spec_register_batch(work@, full.skip(0)))
            == spec_register_batch(pre, full));
    }
    while i < entries.len()
        invariant
            0 <= i <= entries@.len(),
            full == batch_view(entries@),
            full.len() == entries@.len(),
            forall|j: int|
                0 <= j < entries@.len() ==> #[trigger] full[j] == (
                    (entries@[j].0.key@, entries@[j].0.value@),
                    entries@[j].1,
                ),
            work.wf(),
            vars@ == pre,
            vars.wf(),
            spec_register_batch(pre, full) == prepend_attrs(
                attrs_view(attrs@),
                spec_register_batch(work@, full.skip(i as int)),
            ),
        decreases entries@.len() - i,
    {
        let ghost wv = work@;
        let ghost sfx = full.skip(i as int);
        proof {
            assert(sfx.len() == full.len() - i);
            assert(sfx[0] == full[i as int]);
            assert(sfx.drop_first() =~= full.skip(i as int + 1));
        }
        let msg = RegisterVariableMsg {
            key: entries[i].0.key.clone(),
            value: entries[i].0.value.clone(),
        };
        let ok_flag = entries[i].1;
        let ghost attrs_pre = attrs_view(attrs@);
        match run_register_variable(&mut work, msg, ok_flag) {
            Ok(_) => {},
            Err(e) => {
                proof {
                    assert(spec_register_batch(wv, sfx) == Err::<
                        (StoreModel, Seq<(Seq<char>, Seq<char>)>),
                        ErrorView,
                    >(e@));
                }
                return Err(e);
            },
        }
        attrs.push(crate::response::attr("key", entries[i].0.key.clone()));
        attrs.push(crate::response::attr("value", entries[i].0.value.render()));
        i = i + 1;
        proof {
            let key = full[i - 1].0.0;
            let value = full[i - 1].0.1;
            assert(attrs_view(attrs@) =~= attrs_pre.push(("key"@, key)).push((
                "value"@,
                spec_render(value),
            )));
            assert(spec_register_batch(wv, sfx) == prepend_attrs(
                seq![("key"@, key), ("value"@, spec_render(value))],
                spec_register_batch(work@, sfx.drop_first()),
            ));
            lemma_prepend_attrs_snoc2(
                attrs_pre,
                ("key"@, key),
                ("value"@, spec_render(value)),
                spec_register_batch(work@, sfx.drop_first()),
            );
        }
    }
    proof {
        assert(full.skip(i as int) =~= Seq::<((Seq<char>, VariableView), bool)>::empty());
        assert(spec_register_batch(work@, full.skip(i as int)) == Ok::<_, ErrorView>((
            work@,
            Seq::<(Seq<char>, Seq<char>)>::empty(),
        )));
        assert(attrs_view(attrs@) + Seq::<(Seq<char>, Seq<char>)>::empty() =~= attrs_view(attrs@));
    }
    *vars = work;
    let resp = Response::new().add_attribute("action", "register_variable".to_owned())
        .add_attributes(attrs);
    proof {
        assert(resp@.skip(1) =~= attrs_view(attrs@));
        assert(resp@[0] == ("action"@, "register_variable"@));
    }
    Ok(resp)
}

/// Updates one variable. On success the attributes name the action, the key
/// and the rendered value.
pub fn run_update_variable(vars: &mut VariableStore, msg: RegisterVariableMsg, addr_ok: bool) -> (r:
    ContractResponse)
    requires
        old(vars).wf(),
    ensures
        final (vars).wf(),
        match r {
            Ok(resp) => {
                &&& spec_update_var(old(vars)@, msg.key@, msg.value@, addr_ok) == Ok::<
                    StoreModel,
                    ErrorView,
                >(final (vars)@)
                &&& resp@ == seq![
                    ("action"@, "update_variable"@),
                    ("key"@, msg.key@),
                    ("value"@, spec_render(msg.value@)),
                ]
            },
            Err(e) => {
                &&& spec_update_var(old(vars)@, msg.key@, msg.value@, addr_ok) == Err::<
                    StoreModel,
                    ErrorView,
                >(e@)
                &&& final (vars)@ == old(vars)@
            },
        },
{
    let RegisterVariableMsg { key, value } = msg;
    let rendered = value.render();
    let validated = match value.validate(addr_ok) {
        Ok(v) => v,
        Err(e) => {
            return Err(e);
        },
    };
    match vars.update(key.clone(), validated) {
        Ok(_) => {},
        Err(e) => {
            return Err(e);
        },
    }
    let resp = Response::new().add_attribute("action", "update_variable".to_owned()).add_attribute(
        "key",
        key,
    ).add_attribute("value", rendered);
    proof {
        assert(resp@ =~= seq![
            ("action"@, "update_variable"@),
            ("key"@, msg.key@),
            ("value"@, spec_render(msg.value@)),
        ]);
    }
    Ok(resp)
}

/// Updates a batch of variables, all or nothing.
pub fn run_update_variables(
    vars: &mut VariableStore,
    entries: &Vec<(RegisterVariableMsg, bool)>,
) -> (r: ContractResponse)
    requires
        old(vars).wf(),
    ensures
        final (vars).wf(),
        match r {
            Ok(resp) => {
                &&& spec_update_batch(old(vars)@, batch_view(entries@)) == Ok::<_, ErrorView>(
                    (final (vars)@, resp@.skip(1)),
                )
                &&& resp@.len() >= 1
                &&& resp@[0] == ("action"@, "update_variable"@)
            },
            Err(e) => {
                &&& spec_update_batch(old(vars)@, batch_view(entries@)) == Err::<
                    (StoreModel, Seq<(Seq<char>, Seq<char>)>),
                    ErrorView,
                >(e@)
                &&& final (vars)@ == old(vars)@
            },
        },
{
    let ghost pre = vars@;
    let ghost full = batch_view(entries@);
    proof {
        lemma_batch_view(entries@);
    }
    let mut work = vars.snapshot();
    let mut attrs: Vec<crate::response::Attribute> = Vec::new();
    let mut i: usize = 0;
    proof {
        assert(attrs_view(attrs@) =~= Seq::<(Seq<char>, Seq<char>)>::empty());
        assert(full.skip(0) =~= full);
        assert(prepend_attrs(attrs_view(attrs@), spec_update_batch(work@, full.skip(0)))
            == spec_update_batch(pre, full));
    }
    while i < entries.len()
        invariant
            0 <= i <= entries@.len(),
            full == batch_view(entries@),
            full.len() == entries@.len(),
            forall|j: int|
                0 <= j < entries@.len() ==> #[trigger] full[j] == (
                    (entries@[j].0.key@, entries@[j].0.value@),
                    entries@[j].1,
                ),
            work.wf(),
            vars@ == pre,
            vars.wf(),
            spec_update_batch(pre, full) == prepend_attrs(
                attrs_view(attrs@),
                spec_update_batch(work@, full.skip(i as int)),
            ),
        decreases entries@.len() - i,
    {
        let ghost wv = work@;
        let ghost sfx = full.skip(i as int);
        proof {
            assert(sfx.len() == full.len() - i);
            assert(sfx[0] == full[i as int]);
            assert(sfx.drop_first() =~= full.skip(i as int + 1));
        }
        let msg = RegisterVariableMsg {
            key: entries[i].0.key.clone(),
            value: entries[i].0.value.clone(),
        };
        let ok_flag = entries[i].1;
        let ghost attrs_pre = attrs_view(attrs@);
        match run_update_variable(&mut work, msg, ok_flag) {
            Ok(_) => {},
            Err(e) => {
                proof {
                    assert(spec_update_batch(wv, sfx) == Err::<
                        (StoreModel, Seq<(Seq<char>, Seq<char>)>),
                        ErrorView,
                    >(e@));
                }
                return Err(e);
            },
        }
        attrs.push(crate::response::attr("key", entries[i].0.key.clone()));
        attrs.push(crate::response::attr("value", entries[i].0.value.render()));
        i = i + 1;
        proof {
            let key = full[i - 1].0.0;
            let value = full[i - 1].0.1;
            assert(attrs_view(attrs@) =~= attrs_pre.push(("key"@, key)).push((
                "value"@,
                spec_render(value),
            )));
            assert(spec_update_batch(wv, sfx) == prepend_attrs(
                seq![("key"@, key), ("value"@, spec_render(value))],
                spec_update_batch(work@, sfx.drop_first()),
            ));
            lemma_prepend_attrs_snoc2(
                attrs_pre,
                ("key"@, key),
                ("value"@, spec_render(value)),
                spec_update_batch(work@, sfx.drop_first()),
            );
        }
    }
    proof {
        assert(full.skip(i as int) =~= Seq::<((Seq<char>, VariableView), bool)>::empty());
        assert(spec_update_batch(work@, full.skip(i as int)) == Ok::<_, ErrorView>((
            work@,
            Seq::<(Seq<char>, Seq<char>)>::empty(),
        )));
        assert(attrs_view(attrs@) + Seq::<(Seq<char>, Seq<char>)>::empty() =~= attrs_view(attrs@));
    }
    *vars = work;
    let resp = Response::new().add_attribute("action", "update_variable".to_owned())
        .add_attributes(attrs);
    proof {
        assert(resp@.skip(1) =~= attrs_view(attrs@));
        assert(resp@[0] == ("action"@, "update_variable"@));
    }
    Ok(resp)
}

/// Removes one variable. On success the attributes name the action, the key
/// and the rendered removed value, for auditability.
pub fn run_remove_variable(vars: &mut VariableStore, msg: RemoveVariableMsg) -> (r:
    ContractResponse)
    requires
        old(vars).wf(),
    ensures
        final (vars).wf(),
        match r {
            Ok(resp) => {
                &&& spec_remove_var(old(vars)@, msg.key@) matches Ok(p)
                &&& spec_remove_var(old(vars)@, msg.key@) == Ok::<_, ErrorView>((
                    final (vars)@,
                    value_of(old(vars)@, msg.key@),
                ))
                &&& resp@ == seq![
                    ("action"@, "remove_variable"@),
                    ("key"@, msg.key@),
                    ("value"@, spec_render(value_of(old(vars)@, msg.key@))),
                ]
            },
            Err(e) => {
                &&& spec_remove_var(old(vars)@, msg.key@) == Err::<
                    (StoreModel, VariableView),
                    ErrorView,
                >(e@)
                &&& final (vars)@ == old(vars)@
            },
        },
{
    let removed = match vars.remove(&msg.key) {
        Ok(v) => v,
        Err(e) => {
            return Err(e);
        },
    };
    proof {
        lemma_entry_value(old(vars)@, msg.key@, removed@);
    }
    let rendered = removed.render();
    let resp = Response::new().add_attribute("action", "remove_variable".to_owned()).add_attribute(
        "key",
        msg.key,
    ).add_attribute("value", rendered);
    proof {
        assert(resp@ =~= seq![
            ("action"@, "remove_variable"@),
            ("key"@, msg.key@),
            ("value"@, spec_render(value_of(old(vars)@, msg.key@))),
        ]);
    }
    Ok(resp)
}

/// Builds the initial state: the owner identities added to an empty
/// registry, which must not end empty, and an empty store.
pub fn instantiate(owners: Vec<AddrResolution>) -> (r: Result<ContractState, ContractError>)
    ensures
        match r {
            Ok(st) => {
                &&& st.wf()
                &&& crate::owners::spec_add_owners(
                    Seq::<Seq<char>>::empty(),
                    crate::owners::res_view(owners@),
                ) matches Ok(p) && st.config@ == p.0
                &&& st.config@.len() > 0
                &&& st.variables@ == Seq::<(Seq<char>, VariableView)>::empty()
            },
            Err(e) => match crate::owners::spec_add_owners(
                Seq::<Seq<char>>::empty(),
                crate::owners::res_view(owners@),
            ) {
                Ok(p) => p.0.len() == 0 && e@ == ErrorView::EmptyOwnerSet,
                Err(e2) => e@ == e2,
            },
        },
{
    let mut config = Config::empty();
    match add_owners(&mut config, &owners) {
        Ok(_) => {},
        Err(e) => {
            return Err(e);
        },
    }
    match config.validate() {
        Ok(_) => {},
        Err(e) => {
            return Err(e);
        },
    }
    Ok(ContractState { config, variables: VariableStore::new() })
}

/// Handles one mutating request: the caller must be an owner, and the
/// request is dispatched to its handler. A caller that is not an owner is
/// rejected with `Unauthorized` and nothing changes; read requests do not
/// pass through here at all.
pub fn execute(state: &mut ContractState, sender: &crate::values::Addr, msg: ResolvedExecuteMsg) -> (r:
    ContractResponse)
    requires
        old(state).wf(),
    ensures
        final (state).wf(),
        !is_owner(old(state).config@, sender@) ==> {
            &&& r matches Err(e) && e@ == ErrorView::Unauthorized(sender@)
            &&& final (state).config@ == old(state).config@
            &&& final (state).variables@ == old(state).variables@
        },
        is_owner(old(state).config@, sender@) ==> match msg {
            ResolvedExecuteMsg::RegisterVariable(m, ok) => {
                &&& final (state).config@ == old(state).config@
                &&& match r {
                    Ok(resp) => spec_register_var(old(state).variables@, m.key@, m.value@, ok)
                        == Ok::<StoreModel, ErrorView>(final (state).variables@),
                    Err(e) => spec_register_var(old(state).variables@, m.key@, m.value@, ok)
                        == Err::<StoreModel, ErrorView>(e@) && final (state).variables@ == old(
                        state,
                    ).variables@,
                }
            },
            ResolvedExecuteMsg::RegisterVariables(entries) => {
                &&& final (state).config@ == old(state).config@
                &&& match r {
                    Ok(resp) => spec_register_batch(old(state).variables@, batch_view(entries@))
                        == Ok::<_, ErrorView>((final (state).variables@, resp@.skip(1))),
                    Err(e) => spec_register_batch(old(state).variables@, batch_view(entries@))
                        == Err::<(StoreModel, Seq<(Seq<char>, Seq<char>)>), ErrorView>(e@) && final (state).variables@ == old(state).variables@,
                }
            },
            ResolvedExecuteMsg::UpdateVariable(m, ok) => {
                &&& final (state).config@ == old(state).config@
                &&& match r {
                    Ok(resp) => spec_update_var(old(state).variables@, m.key@, m.value@, ok) == Ok::<
                        StoreModel,
                        ErrorView,
                    >(final (state).variables@),
                    Err(e) => spec_update_var(old(state).variables@, m.key@, m.value@, ok) == Err::<
                        StoreModel,
                        ErrorView,
                    >(e@) && final (state).variables@ == old(state).variables@,
                }
            },
            ResolvedExecuteMsg::UpdateVariables(entries) => {
                &&& final (state).config@ == old(state).config@
                &&& match r {
                    Ok(resp) => spec_update_batch(old(state).variables@, batch_view(entries@))
                        == Ok::<_, ErrorView>((final (state).variables@, resp@.skip(1))),
                    Err(e) => spec_update_batch(old(state).variables@, batch_view(entries@))
                        == Err::<(StoreModel, Seq<(Seq<char>, Seq<char>)>), ErrorView>(e@) && final (state).variables@ == old(state).variables@,
                }
            },
            ResolvedExecuteMsg::RemoveVariable(m) => {
                &&& final (state).config@ == old(state).config@
                &&& match r {
                    Ok(resp) => spec_remove_var(old(state).variables@, m.key@) == Ok::<
                        _,
                        ErrorView,
                    >((final (state).variables@, value_of(old(state).variables@, m.key@))),
                    Err(e) => spec_remove_var(old(state).variables@, m.key@) == Err::<
                        (StoreModel, VariableView),
                        ErrorView,
                    >(e@) && final (state).variables@ == old(state).variables@,
                }
            },
            ResolvedExecuteMsg::UpdateOwners(add, remove) => {
                &&& final (state).variables@ == old(state).variables@
                &&& match r {
                    Ok(resp) => spec_update_owners(
                        old(state).config@,
                        opt_res_view(add),
                        opt_res_view(remove),
                    ) == Ok::<_, ErrorView>((final (state).config@, resp@.skip(1))),
                    Err(e) => spec_update_owners(
                        old(state).config@,
                        opt_res_view(add),
                        opt_res_view(remove),
                    ) == Err::<(Seq<Seq<char>>, Seq<(Seq<char>, Seq<char>)>), ErrorView>(e@)
                        && final (state).config@ == old(state).config@,
                }
            },
        },
{
    match state.config.validate_owner(sender) {
        Ok(_) => {},
        Err(e) => {
            return Err(e);
        },
    }
    match msg {
        ResolvedExecuteMsg::RegisterVariable(m, ok) => run_register_variable(
            &mut state.variables,
            m,
            ok,
        ),
        ResolvedExecuteMsg::RegisterVariables(entries) => run_register_variables(
            &mut state.variables,
            &entries,
        ),
        ResolvedExecuteMsg::UpdateVariable(m, ok) => run_update_variable(
            &mut state.variables,
            m,
            ok,
        ),
        ResolvedExecuteMsg::UpdateVariables(entries) => run_update_variables(
            &mut state.variables,
            &entries,
        ),
        ResolvedExecuteMsg::RemoveVariable(m) => run_remove_variable(&mut state.variables, m),
        ResolvedExecuteMsg::UpdateOwners(add, remove) => run_update_owner_msg(
            &mut state.config,
            add,
            remove,
        ),
    }
}

/// Law: registering a key twice fails the second registration with the key
/// and the value the first one stored, and the store still holds that value.
pub proof fn lemma_register_duplicate(
    s: StoreModel,
    k: Seq<char>,
    v1: VariableView,
    v2: VariableView,
    ok2: bool,
)
    requires
        model_wf(s),
        !has_key(s, k),
    ensures
        spec_register_var(insert_model(s, k, v1), k, v2, ok2) == Err::<StoreModel, ErrorView>(
            ErrorView::KeyAlreadyRegistered(k, v1),
        ),
        value_of(insert_model(s, k, v1), k) == v1,
{
    crate::state::lemma_insert(s, k, v1);
    lemma_entry_value(insert_model(s, k, v1), k, v1);
}

/// Law: a batch whose first key is already registered fails whole, and a
/// later key of the batch gains no entry.
pub proof fn lemma_batch_atomic(
    s: StoreModel,
    a: Seq<char>,
    b: Seq<char>,
    va: VariableView,
    vb: VariableView,
    oka: bool,
    okb: bool,
)
    requires
        model_wf(s),
        has_key(s, a),
        !has_key(s, b),
    ensures
        spec_register_batch(s, seq![((a, va), oka), ((b, vb), okb)]) == Err::<
            (StoreModel, Seq<(Seq<char>, Seq<char>)>),
            ErrorView,
        >(ErrorView::KeyAlreadyRegistered(a, value_of(s, a))),
{
    let entries = seq![((a, va), oka), ((b, vb), okb)];
    assert(entries[0] == ((a, va), oka));
    assert(spec_register_var(s, a, va, oka) == Err::<StoreModel, ErrorView>(
        ErrorView::KeyAlreadyRegistered(a, value_of(s, a)),
    ));
}

} // verus!
