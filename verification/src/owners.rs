//! The owner registry: the set of identities allowed to mutate the store,
//! held as a duplicate-free ordered list, with all-or-nothing addition and
//! removal against the host validator's verdicts.

use vstd::prelude::*;

use crate::response::{attr, attrs_view, Attribute, ContractError, ErrorView};
use crate::values::Addr;

verus! {

/// The host validator's verdict on one raw address string: the resolved
/// address, or the raw text the validator rejected.
pub enum AddrResolution {
    Resolved(Addr),
    Invalid(String),
}

/// The mathematical value of an [`AddrResolution`].
pub enum ResolutionView {
    Resolved(Seq<char>),
    Invalid(Seq<char>),
}

impl View for AddrResolution {
    type V = ResolutionView;

    open spec fn view(&self) -> ResolutionView {
        match self {
            AddrResolution::Resolved(a) => ResolutionView::Resolved(a@),
            AddrResolution::Invalid(raw) => ResolutionView::Invalid(raw@),
        }
    }
}

/// The identity strings of an address list.
pub open spec fn owners_view(s: Seq<Addr>) -> Seq<Seq<char>> {
    Seq::new(s.len(), |i: int| s[i]@)
}

/// Length and indexing of `owners_view`.
pub proof fn lemma_owners_view(s: Seq<Addr>)
    ensures
        owners_view(s).len() == s.len(),
        forall|i: int| 0 <= i < s.len() ==> #[trigger] owners_view(s)[i] == s[i]@,
{
}

/// The verdicts of a resolution list.
pub open spec fn res_view(s: Seq<AddrResolution>) -> Seq<ResolutionView> {
    Seq::new(s.len(), |i: int| s[i]@)
}

/// Length and indexing of `res_view`.
pub proof fn lemma_res_view(s: Seq<AddrResolution>)
    ensures
        res_view(s).len() == s.len(),
        forall|i: int| 0 <= i < s.len() ==> #[trigger] res_view(s)[i] == s[i]@,
{
}

/// The registry holds no identity twice.
pub open spec fn config_wf(s: Seq<Seq<char>>) -> bool {
    forall|i: int, j: int| 0 <= i < j < s.len() ==> (#[trigger] s[i]) != (#[trigger] s[j])
}

/// `a` is an owner.
pub open spec fn is_owner(s: Seq<Seq<char>>, a: Seq<char>) -> bool {
    s.contains(a)
}

/// What adding a list of verdicts does to the registry: walking the list in
/// order, a rejected string or an address already present fails the whole
/// addition; otherwise every address is appended and one `owner_added`
/// attribute per address is emitted, in order.
pub open spec fn spec_add_owners(owners: Seq<Seq<char>>, addrs: Seq<ResolutionView>) -> Result<
    (Seq<Seq<char>>, Seq<(Seq<char>, Seq<char>)>),
    ErrorView,
>
    decreases addrs.len(),
{
    if addrs.len() == 0 {
        Ok((owners, Seq::empty()))
    } else {
        match addrs[0] {
            ResolutionView::Invalid(raw) => Err(ErrorView::InvalidAddress(raw)),
            ResolutionView::Resolved(a) => if owners.contains(a) {
                Err(ErrorView::IsAlreadyOwner(a))
            } else {
                match spec_add_owners(owners.push(a), addrs.drop_first()) {
                    Ok(p) => Ok((p.0, seq![("owner_added"@, a)] + p.1)),
                    Err(e) => Err(e),
                }
            },
        }
    }
}

/// The checked identities of a removal list: a rejected string or an address
/// that is not an owner fails the whole removal; membership is judged
/// against the registry as it stands when the removal starts.
pub open spec fn spec_check_removals(owners: Seq<Seq<char>>, addrs: Seq<ResolutionView>) -> Result<
    Seq<Seq<char>>,
    ErrorView,
>
    decreases addrs.len(),
{
    if addrs.len() == 0 {
        Ok(Seq::empty())
    } else {
        match addrs[0] {
            ResolutionView::Invalid(raw) => Err(ErrorView::InvalidAddress(raw)),
            ResolutionView::Resolved(a) => if !owners.contains(a) {
                Err(ErrorView::IsNotOwner(a))
            } else {
                match spec_check_removals(owners, addrs.drop_first()) {
                    Ok(rest) => Ok(seq![a] + rest),
                    Err(e) => Err(e),
                }
            },
        }
    }
}

/// The owners not named in `listed`, in their original order.
pub open spec fn keep_not_listed(owners: Seq<Seq<char>>, listed: Seq<Seq<char>>) -> Seq<Seq<char>>
    decreases owners.len(),
{
    if owners.len() == 0 {
        owners
    } else {
        let rest = keep_not_listed(owners.drop_first(), listed);
        if listed.contains(owners[0]) {
            rest
        } else {
            seq![owners[0]] + rest
        }
    }
}

/// One `owner_removed` attribute per removed identity, in order.
pub open spec fn removed_attrs(listed: Seq<Seq<char>>) -> Seq<(Seq<char>, Seq<char>)> {
    Seq::new(listed.len(), |i: int| ("owner_removed"@, listed[i]))
}

/// What removing a list of verdicts does to the registry.
pub open spec fn spec_remove_owners(owners: Seq<Seq<char>>, addrs: Seq<ResolutionView>) -> Result<
    (Seq<Seq<char>>, Seq<(Seq<char>, Seq<char>)>),
    ErrorView,
> {
    match spec_check_removals(owners, addrs) {
        Ok(listed) => Ok((keep_not_listed(owners, listed), removed_attrs(listed))),
        Err(e) => Err(e),
    }
}

/// Membership and distinctness of `keep_not_listed`.
pub proof fn lemma_keep_not_listed(owners: Seq<Seq<char>>, listed: Seq<Seq<char>>)
    ensures
        forall|x: Seq<char>|
            #[trigger] keep_not_listed(owners, listed).contains(x) <==> (owners.contains(x)
                && !listed.contains(x)),
        config_wf(owners) ==> config_wf(keep_not_listed(owners, listed)),
    decreases owners.len(),
{
    let r = keep_not_listed(owners, listed);
    if owners.len() == 0 {
        assert forall|x: Seq<char>| #[trigger] r.contains(x) implies (owners.contains(x)
            && !listed.contains(x)) by {
            let i = choose|i: int| 0 <= i < r.len() && r[i] == x;
        }
    } else {
        let t = owners.drop_first();
        let rest = keep_not_listed(t, listed);
        lemma_keep_not_listed(t, listed);
        assert forall|x: Seq<char>| #[trigger] t.contains(x) implies owners.contains(x) by {
            let i = choose|i: int| 0 <= i < t.len() && t[i] == x;
            assert(owners[i + 1] == x);
        }
        assert forall|x: Seq<char>| owners.contains(x) implies (x == owners[0] || t.contains(
            x,
        )) by {
            let i = choose|i: int| 0 <= i < owners.len() && owners[i] == x;
            if i > 0 {
                assert(t[i - 1] == x);
            }
        }
        if config_wf(owners) {
            assert forall|i: int, j: int| 0 <= i < j < t.len() implies (#[trigger] t[i])
                != (#[trigger] t[j]) by {
                assert(t[i] == owners[i + 1]);
                assert(t[j] == owners[j + 1]);
            }
            assert(config_wf(t));
            assert(!t.contains(owners[0])) by {
                if t.contains(owners[0]) {
                    let i = choose|i: int| 0 <= i < t.len() && t[i] == owners[0];
                    assert(owners[i + 1] == owners[0]);
                }
            }
        }
        if listed.contains(owners[0]) {
            assert forall|x: Seq<char>| #[trigger] r.contains(x) implies (owners.contains(x)
                && !listed.contains(x)) by {}
            assert forall|x: Seq<char>| owners.contains(x) && !listed.contains(x) implies
                #[trigger] r.contains(x) by {}
        } else {
            assert(r == seq![owners[0]] + rest);
            assert forall|x: Seq<char>| #[trigger] r.contains(x) implies (owners.contains(x)
                && !listed.contains(x)) by {
                let i = choose|i: int| 0 <= i < r.len() && r[i] == x;
                if i == 0 {
                    assert(x == owners[0]);
                } else {
                    assert(rest[i - 1] == x);
                    assert(rest.contains(x));
                }
            }
            assert forall|x: Seq<char>| owners.contains(x) && !listed.contains(x) implies
                #[trigger] r.contains(x) by {
                if x == owners[0] {
                    assert(r[0] == x);
                } else {
                    assert(t.contains(x));
                    assert(rest.contains(x));
                    let i = choose|i: int| 0 <= i < rest.len() && rest[i] == x;
                    assert(r[i + 1] == x);
                }
            }
            if config_wf(owners) {
                assert forall|i: int, j: int| 0 <= i < j < r.len() implies (#[trigger] r[i])
                    != (#[trigger] r[j]) by {
                    if i == 0 {
                        assert(rest[j - 1] == r[j]);
                        assert(rest.contains(r[j]));
                        assert(t.contains(r[j]));
                    } else {
                        assert(rest[i - 1] == r[i]);
                        assert(rest[j - 1] == r[j]);
                    }
                }
            }
        }
    }
}

/// The authorization set: the owners of the store, each allowed to mutate
/// it, in the order they were added.
#[derive(Debug)]
pub struct Config {
    owners: Vec<Addr>,
}

impl View for Config {
    type V = Seq<Seq<char>>;

    closed spec fn view(&self) -> Seq<Seq<char>> {
        owners_view(self.owners@)
    }
}

/// Whether `target` occurs in an address list.
fn contains_addr(owners: &Vec<Addr>, target: &Addr) -> (r: bool)
    ensures
        r == owners_view(owners@).contains(target@),
{
    proof {
        lemma_owners_view(owners@);
    }
    let mut i: usize = 0;
    while i < owners.len()
        invariant
            0 <= i <= owners@.len(),
            forall|j: int| 0 <= j < i ==> #[trigger] owners_view(owners@)[j] != target@,
            forall|j: int| 0 <= j < owners@.len() ==> #[trigger] owners_view(owners@)[j] == owners@[j]@,
        decreases owners@.len() - i,
    {
        if owners[i].same_as(target) {
            proof {
                assert(owners_view(owners@)[i as int] == target@);
            }
            return true;
        }
        i = i + 1;
    }
    proof {
        if owners_view(owners@).contains(target@) {
            let j = choose|j: int|
                0 <= j < owners_view(owners@).len() && owners_view(owners@)[j] == target@;
            assert(owners_view(owners@)[j] != target@);
        }
    }
    false
}

/// Copies an address list.
fn clone_addrs(v: &Vec<Addr>) -> (r: Vec<Addr>)
    ensures
        r@ == v@,
{
    let mut r: Vec<Addr> = Vec::new();
    let mut i: usize = 0;
    while i < v.len()
        invariant
            0 <= i <= v@.len(),
            r@ == v@.subrange(0, i as int),
        decreases v@.len() - i,
    {
        r.push(v[i].clone());
        i = i + 1;
        proof {
            assert(r@ =~= v@.subrange(0, i as int));
        }
    }
    proof {
        assert(r@ =~= v@);
    }
    r
}

impl Config {
    /// No identity is an owner twice.
    pub open spec fn wf(&self) -> bool {
        config_wf(self@)
    }

    /// A registry with no owner at all; only a successful initialization may
    /// hand it on.
    pub(crate) fn empty() -> (r: Config)
        ensures
            r@ == Seq::<Seq<char>>::empty(),
            r.wf(),
    {
        let r = Config { owners: Vec::new() };
        proof {
            lemma_owners_view(r.owners@);
            assert(r@ =~= Seq::<Seq<char>>::empty());
        }
        r
    }

    /// Membership: the sole authorization predicate of every mutating
    /// request.
    pub fn is_authorized(&self, address: &Addr) -> (r: bool)
        ensures
            r == is_owner(self@, address@),
    {
        contains_addr(&self.owners, address)
    }

    /// Fails with `Unauthorized` unless `address` is an owner.
    pub fn validate_owner(&self, address: &Addr) -> (r: Result<(), ContractError>)
        ensures
            match r {
                Ok(_) => is_owner(self@, address@),
                Err(e) => !is_owner(self@, address@) && e@ == ErrorView::Unauthorized(address@),
            },
    {
        if self.is_authorized(address) {
            Ok(())
        } else {
            Err(ContractError::Unauthorized { addr: address.clone() })
        }
    }

    /// Fails with `EmptyOwnerSet` when no owner is left.
    pub fn validate(&self) -> (r: Result<(), ContractError>)
        ensures
            match r {
                Ok(_) => self@.len() > 0,
                Err(e) => self@.len() == 0 && e@ == ErrorView::EmptyOwnerSet,
            },
    {
        proof {
            lemma_owners_view(self.owners@);
        }
        if self.owners.len() == 0 {
            Err(ContractError::EmptyOwnerSet)
        } else {
            Ok(())
        }
    }

    /// The number of owners.
    pub fn owner_count(&self) -> (r: usize)
        ensures
            r == self@.len(),
    {
        proof {
            lemma_owners_view(self.owners@);
        }
        self.owners.len()
    }

    /// A copy of the owner list, in order.
    pub fn owner_list(&self) -> (r: Vec<Addr>)
        ensures
            owners_view(r@) == self@,
    {
        clone_addrs(&self.owners)
    }

    /// A copy of this registry.
    pub fn snapshot(&self) -> (r: Config)
        ensures
            r@ == self@,
    {
        Config { owners: clone_addrs(&self.owners) }
    }
}

/// `r` with `a` put before its attribute list.
pub open spec fn prepend_attrs<T>(
    a: Seq<(Seq<char>, Seq<char>)>,
    r: Result<(T, Seq<(Seq<char>, Seq<char>)>), ErrorView>,
) -> Result<(T, Seq<(Seq<char>, Seq<char>)>), ErrorView> {
    match r {
        Ok(p) => Ok((p.0, a + p.1)),
        Err(e) => Err(e),
    }
}

/// `r` with `l` put before its identity list.
pub open spec fn prepend_listed(l: Seq<Seq<char>>, r: Result<Seq<Seq<char>>, ErrorView>) -> Result<
    Seq<Seq<char>>,
    ErrorView,
> {
    match r {
        Ok(rest) => Ok(l + rest),
        Err(e) => Err(e),
    }
}

pub proof fn lemma_prepend_attrs_snoc<T>(
    a: Seq<(Seq<char>, Seq<char>)>,
    pair: (Seq<char>, Seq<char>),
    r: Result<(T, Seq<(Seq<char>, Seq<char>)>), ErrorView>,
)
    ensures
        prepend_attrs(a, prepend_attrs(seq![pair], r)) == prepend_attrs(a.push(pair), r),
{
    match r {
        Ok(p) => {
            assert(a + (seq![pair] + p.1) =~= a.push(pair) + p.1);
        },
        Err(_) => {},
    }
}

/// Two attributes at once.
pub proof fn lemma_prepend_attrs_snoc2<T>(
    a: Seq<(Seq<char>, Seq<char>)>,
    p1: (Seq<char>, Seq<char>),
    p2: (Seq<char>, Seq<char>),
    r: Result<(T, Seq<(Seq<char>, Seq<char>)>), ErrorView>,
)
    ensures
        prepend_attrs(a, prepend_attrs(seq![p1, p2], r)) == prepend_attrs(a.push(p1).push(p2), r),
{
    match r {
        Ok(p) => {
            assert(a + (seq![p1, p2] + p.1) =~= a.push(p1).push(p2) + p.1);
        },
        Err(_) => {},
    }
}

proof fn lemma_prepend_listed_snoc(
    l: Seq<Seq<char>>,
    x: Seq<char>,
    r: Result<Seq<Seq<char>>, ErrorView>,
)
    ensures
        prepend_listed(l, prepend_listed(seq![x], r)) == prepend_listed(l.push(x), r),
{
    match r {
        Ok(rest) => {
            assert(l + (seq![x] + rest) =~= l.push(x) + rest);
        },
        Err(_) => {},
    }
}

/// Length and indexing of `removed_attrs`.
pub proof fn lemma_removed_attrs(l: Seq<Seq<char>>)
    ensures
        removed_attrs(l).len() == l.len(),
        forall|i: int| 0 <= i < l.len() ==> #[trigger] removed_attrs(l)[i] == ("owner_removed"@, l[i]),
{
}

/// Adds every resolved address to the registry, in order; the first rejected
/// string or already-present address fails the whole addition and leaves the
/// registry unchanged. On success one `owner_added` attribute per address is
/// returned, in order.
pub fn add_owners(config: &mut Config, addresses: &Vec<AddrResolution>) -> (r: Result<
    Vec<Attribute>,
    ContractError,
>)
    requires
        old(config).wf(),
    ensures
        final (config).wf(),
        match r {
            Ok(attrs) => spec_add_owners(old(config)@, res_view(addresses@)) == Ok::<
                _,
                ErrorView,
            >((final (config)@, attrs_view(attrs@))),
            Err(e) => {
                &&& spec_add_owners(old(config)@, res_view(addresses@)) == Err::<
                    (Seq<Seq<char>>, Seq<(Seq<char>, Seq<char>)>),
                    ErrorView,
                >(e@)
                &&& final (config)@ == old(config)@
            },
        },
{
    let ghost pre = config@;
    let ghost full = res_view(addresses@);
    proof {
        lemma_res_view(addresses@);
    }
    let mut local = clone_addrs(&config.owners);
    let mut attrs: Vec<Attribute> = Vec::new();
    let mut i: usize = 0;
    proof {
        lemma_owners_view(local@);
        lemma_owners_view(config.owners@);
        assert(owners_view(local@) =~= pre);
        assert(attrs_view(attrs@) =~= Seq::<(Seq<char>, Seq<char>)>::empty());
        assert(full.skip(0) =~= full);
        assert(prepend_attrs(attrs_view(attrs@), spec_add_owners(owners_view(local@), full.skip(0)))
            == spec_add_owners(pre, full));
    }
    while i < addresses.len()
        invariant
            0 <= i <= addresses@.len(),
            full == res_view(addresses@),
            full.len() == addresses@.len(),
            forall|j: int| 0 <= j < addresses@.len() ==> #[trigger] full[j] == addresses@[j]@,
            config_wf(owners_view(local@)),
            config@ == pre,
            config.wf(),
            spec_add_owners(pre, full) == prepend_attrs(
                attrs_view(attrs@),
                spec_add_owners(owners_view(local@), full.skip(i as int)),
            ),
        decreases addresses@.len() - i,
    {
        let ghost ov = owners_view(local@);
        let ghost sfx = full.skip(i as int);
        proof {
            assert(sfx.len() == full.len() - i);
            assert(sfx[0] == full[i as int]);
            assert(sfx.drop_first() =~= full.skip(i as int + 1));
        }
        match &addresses[i] {
            AddrResolution::Invalid(raw) => {
                proof {
                    assert(sfx[0] == ResolutionView::Invalid(raw@));
                    assert(spec_add_owners(ov, sfx) == Err::<
                        (Seq<Seq<char>>, Seq<(Seq<char>, Seq<char>)>),
                        ErrorView,
                    >(ErrorView::InvalidAddress(raw@)));
                }
                return Err(ContractError::InvalidAddress { raw: raw.clone() });
            },
            AddrResolution::Resolved(a) => {
                if contains_addr(&local, a) {
                    proof {
                        assert(sfx[0] == ResolutionView::Resolved(a@));
                        assert(spec_add_owners(ov, sfx) == Err::<
                            (Seq<Seq<char>>, Seq<(Seq<char>, Seq<char>)>),
                            ErrorView,
                        >(ErrorView::IsAlreadyOwner(a@)));
                    }
                    return Err(ContractError::IsAlreadyOwner { addr: a.clone() });
                }
                let ghost attrs_pre = attrs_view(attrs@);
                local.push(a.clone());
                attrs.push(attr("owner_added", a.as_str().to_owned()));
                i = i + 1;
                proof {
                    lemma_owners_view(local@);
                    assert(owners_view(local@) =~= ov.push(a@));
                    assert(attrs_view(attrs@) =~= attrs_pre.push(("owner_added"@, a@)));
                    assert forall|x: int, y: int|
                        0 <= x < y < owners_view(local@).len() implies (#[trigger] owners_view(
                        local@,
                    )[x]) != (#[trigger] owners_view(local@)[y]) by {
                        if y == ov.len() {
                            assert(owners_view(local@)[x] == ov[x]);
                            if ov[x] == a@ {
                                assert(ov.contains(a@));
                            }
                        } else {
                            assert(owners_view(local@)[x] == ov[x]);
                            assert(owners_view(local@)[y] == ov[y]);
                        }
                    }
                    assert(sfx[0] == ResolutionView::Resolved(a@));
                    assert(spec_add_owners(ov, sfx) == prepend_attrs(
                        seq![("owner_added"@, a@)],
                        spec_add_owners(ov.push(a@), sfx.drop_first()),
                    ));
                    lemma_prepend_attrs_snoc(
                        attrs_pre,
                        ("owner_added"@, a@),
                        spec_add_owners(ov.push(a@), sfx.drop_first()),
                    );
                }
            },
        }
    }
    proof {
        assert(full.skip(i as int) =~= Seq::<ResolutionView>::empty());
        assert(spec_add_owners(owners_view(local@), full.skip(i as int)) == Ok::<_, ErrorView>((
            owners_view(local@),
            Seq::<(Seq<char>, Seq<char>)>::empty(),
        )));
        assert(attrs_view(attrs@) + Seq::<(Seq<char>, Seq<char>)>::empty() =~= attrs_view(attrs@));
    }
    config.owners = local;
    proof {
        lemma_owners_view(config.owners@);
    }
    Ok(attrs)
}

/// Removes every resolved address from the registry; the first rejected
/// string or non-owner address fails the whole removal and leaves the
/// registry unchanged. Membership is judged against the registry as it
/// stands when the removal starts. On success one `owner_removed` attribute
/// per address is returned, in order.
pub fn remove_owners(config: &mut Config, addresses: &Vec<AddrResolution>) -> (r: Result<
    Vec<Attribute>,
    ContractError,
>)
    requires
        old(config).wf(),
    ensures
        final (config).wf(),
        match r {
            Ok(attrs) => spec_remove_owners(old(config)@, res_view(addresses@)) == Ok::<
                _,
                ErrorView,
            >((final (config)@, attrs_view(attrs@))),
            Err(e) => {
                &&& spec_remove_owners(old(config)@, res_view(addresses@)) == Err::<
                    (Seq<Seq<char>>, Seq<(Seq<char>, Seq<char>)>),
                    ErrorView,
                >(e@)
                &&& final (config)@ == old(config)@
            },
        },
{
    let ghost pre = config@;
    let ghost full = res_view(addresses@);
    proof {
        lemma_res_view(addresses@);
        lemma_owners_view(config.owners@);
    }
    let mut listed: Vec<Addr> = Vec::new();
    let mut attrs: Vec<Attribute> = Vec::new();
    let mut i: usize = 0;
    proof {
        lemma_owners_view(listed@);
        assert(owners_view(listed@) =~= Seq::<Seq<char>>::empty());
        assert(attrs_view(attrs@) =~= removed_attrs(owners_view(listed@)));
        assert(full.skip(0) =~= full);
        assert(prepend_listed(owners_view(listed@), spec_check_removals(pre, full.skip(0)))
            == spec_check_removals(pre, full));
    }
    while i < addresses.len()
        invariant
            0 <= i <= addresses@.len(),
            full == res_view(addresses@),
            full.len() == addresses@.len(),
            forall|j: int| 0 <= j < addresses@.len() ==> #[trigger] full[j] == addresses@[j]@,
            config@ == pre,
            config.wf(),
            attrs_view(attrs@) == removed_attrs(owners_view(listed@)),
            spec_check_removals(pre, full) == prepend_listed(
                owners_view(listed@),
                spec_check_removals(pre, full.skip(i as int)),
            ),
        decreases addresses@.len() - i,
    {
        let ghost lv = owners_view(listed@);
        let ghost sfx = full.skip(i as int);
        proof {
            assert(sfx.len() == full.len() - i);
            assert(sfx[0] == full[i as int]);
            assert(sfx.drop_first() =~= full.skip(i as int + 1));
        }
        match &addresses[i] {
            AddrResolution::Invalid(raw) => {
                proof {
                    assert(sfx[0] == ResolutionView::Invalid(raw@));
                    assert(spec_check_removals(pre, sfx) == Err::<Seq<Seq<char>>, ErrorView>(
                        ErrorView::InvalidAddress(raw@),
                    ));
                }
                return Err(ContractError::InvalidAddress { raw: raw.clone() });
            },
            AddrResolution::Resolved(a) => {
                if !contains_addr(&config.owners, a) {
                    proof {
                        assert(sfx[0] == ResolutionView::Resolved(a@));
                        assert(!pre.contains(a@));
                        assert(spec_check_removals(pre, sfx) == Err::<Seq<Seq<char>>, ErrorView>(
                            ErrorView::IsNotOwner(a@),
                        ));
                    }
                    return Err(ContractError::IsNotOwner { addr: a.clone() });
                }
                let ghost attrs_pre = attrs_view(attrs@);
                listed.push(a.clone());
                attrs.push(attr("owner_removed", a.as_str().to_owned()));
                i = i + 1;
                proof {
                    lemma_owners_view(listed@);
                    lemma_removed_attrs(owners_view(listed@));
                    lemma_removed_attrs(lv);
                    assert(owners_view(listed@) =~= lv.push(a@));
                    assert(attrs_view(attrs@) =~= attrs_pre.push(("owner_removed"@, a@)));
                    assert(removed_attrs(owners_view(listed@)) =~= attrs_pre.push((
                        "owner_removed"@,
                        a@,
                    )));
                    assert(attrs_view(attrs@) =~= removed_attrs(owners_view(listed@)));
                    assert(sfx[0] == ResolutionView::Resolved(a@));
                    assert(pre.contains(a@));
                    assert(spec_check_removals(pre, sfx) == prepend_listed(
                        seq![a@],
                        spec_check_removals(pre, sfx.drop_first()),
                    ));
                    lemma_prepend_listed_snoc(lv, a@, spec_check_removals(pre, sfx.drop_first()));
                }
            },
        }
    }
    let ghost lv = owners_view(listed@);
    proof {
        assert(full.skip(i as int) =~= Seq::<ResolutionView>::empty());
        assert(spec_check_removals(pre, full.skip(i as int)) == Ok::<_, ErrorView>(Seq::<
            Seq<char>,
        >::empty()));
        assert(lv + Seq::<Seq<char>>::empty() =~= lv);
        assert(spec_check_removals(pre, full) == Ok::<_, ErrorView>(lv));
    }
    // rebuild the registry without the listed identities
    let mut kept: Vec<Addr> = Vec::new();
    let mut j: usize = 0;
    let n = config.owners.len();
    proof {
        lemma_owners_view(kept@);
        lemma_owners_view(config.owners@);
        assert(owners_view(kept@) =~= Seq::<Seq<char>>::empty());
        assert(pre.skip(0) =~= pre);
        assert(owners_view(kept@) + keep_not_listed(pre.skip(0), lv) =~= keep_not_listed(pre, lv));
    }
    while j < n
        invariant
            0 <= j <= n,
            n == config.owners@.len(),
            config@ == pre,
            config.wf(),
            pre.len() == n,
            lv == owners_view(listed@),
            forall|m: int| 0 <= m < n ==> #[trigger] pre[m] == config.owners@[m]@,
            keep_not_listed(pre, lv) == owners_view(kept@) + keep_not_listed(pre.skip(j as int), lv),
        decreases n - j,
    {
        let ghost kv = owners_view(kept@);
        let ghost sfx = pre.skip(j as int);
        proof {
            assert(sfx.len() == pre.len() - j);
            assert(sfx[0] == pre[j as int]);
            assert(sfx.drop_first() =~= pre.skip(j as int + 1));
        }
        if contains_addr(&listed, &config.owners[j]) {
            proof {
                assert(lv.contains(sfx[0]));
                assert(keep_not_listed(sfx, lv) == keep_not_listed(sfx.drop_first(), lv));
            }
        } else {
            kept.push(config.owners[j].clone());
            proof {
                lemma_owners_view(kept@);
                assert(owners_view(kept@) =~= kv.push(pre[j as int]));
                assert(!lv.contains(sfx[0]));
                assert(keep_not_listed(sfx, lv) == seq![sfx[0]] + keep_not_listed(
                    sfx.drop_first(),
                    lv,
                ));
                assert(kv + (seq![pre[j as int]] + keep_not_listed(sfx.drop_first(), lv))
                    =~= kv.push(pre[j as int]) + keep_not_listed(sfx.drop_first(), lv));
            }
        }
        j = j + 1;
    }
    proof {
        assert(pre.skip(n as int) =~= Seq::<Seq<char>>::empty());
        assert(keep_not_listed(pre.skip(n as int), lv) == Seq::<Seq<char>>::empty());
        assert(owners_view(kept@) + Seq::<Seq<char>>::empty() =~= owners_view(kept@));
        assert(owners_view(kept@) == keep_not_listed(pre, lv));
        lemma_keep_not_listed(pre, lv);
    }
    config.owners = kept;
    proof {
        lemma_owners_view(config.owners@);
    }
    Ok(attrs)
}

/// The verdicts of an optional resolution list.
pub open spec fn opt_res_view(o: Option<Vec<AddrResolution>>) -> Option<Seq<ResolutionView>> {
    match o {
        Some(v) => Some(res_view(v@)),
        None => None,
    }
}

/// What one owner update does: additions first, then removals, judged
/// against the registry the additions produced; an update naming neither is
/// malformed; an update that would leave no owner is rejected whole.
pub open spec fn spec_update_owners(
    owners: Seq<Seq<char>>,
    add: Option<Seq<ResolutionView>>,
    remove: Option<Seq<ResolutionView>>,
) -> Result<(Seq<Seq<char>>, Seq<(Seq<char>, Seq<char>)>), ErrorView> {
    let step = match (add, remove) {
        (Option::None, Option::None) => Err(ErrorView::InvalidUpdateOwnerMsg),
        (Option::Some(a), Option::None) => spec_add_owners(owners, a),
        (Option::None, Option::Some(r)) => spec_remove_owners(owners, r),
        (Option::Some(a), Option::Some(r)) => match spec_add_owners(owners, a) {
            Ok(p) => match spec_remove_owners(p.0, r) {
                Ok(q) => Ok((q.0, p.1 + q.1)),
                Err(e) => Err(e),
            },
            Err(e) => Err(e),
        },
    };
    match step {
        Ok(p) => if p.0.len() == 0 {
            Err(ErrorView::EmptyOwnerSet)
        } else {
            Ok(p)
        },
        Err(e) => Err(e),
    }
}

/// Applies one owner update: additions first, then removals, all-or-nothing,
/// and the registry must not end empty. On success the attributes are one
/// `action` attribute followed by the addition and removal attributes.
pub fn run_update_owner_msg(
    config: &mut Config,
    add: Option<Vec<AddrResolution>>,
    remove: Option<Vec<AddrResolution>>,
) -> (r: Result<crate::response::Response, ContractError>)
    requires
        old(config).wf(),
    ensures
        final (config).wf(),
        match r {
            Ok(resp) => {
                &&& spec_update_owners(old(config)@, opt_res_view(add), opt_res_view(remove))
                    matches Ok(p)
                &&& spec_update_owners(old(config)@, opt_res_view(add), opt_res_view(remove))
                    == Ok::<_, ErrorView>((final (config)@, resp@.skip(1)))
                &&& resp@.len() >= 1
                &&& resp@[0] == ("action"@, "update_owners"@)
            },
            Err(e) => {
                &&& spec_update_owners(old(config)@, opt_res_view(add), opt_res_view(remove))
                    == Err::<(Seq<Seq<char>>, Seq<(Seq<char>, Seq<char>)>), ErrorView>(e@)
                &&& final (config)@ == old(config)@
            },
        },
{
    let ghost pre = config@;
    let mut work = config.snapshot();
    let attrs: Vec<Attribute> = match (&add, &remove) {
        (Option::None, Option::None) => {
            return Err(ContractError::InvalidUpdateOwnerMsg);
        },
        (Option::Some(a), Option::None) => {
            match add_owners(&mut work, a) {
                Ok(attrs) => attrs,
                Err(e) => {
                    return Err(e);
                },
            }
        },
        (Option::None, Option::Some(rm)) => {
            match remove_owners(&mut work, rm) {
                Ok(attrs) => attrs,
                Err(e) => {
                    return Err(e);
                },
            }
        },
        (Option::Some(a), Option::Some(rm)) => {
            let mut first = match add_owners(&mut work, a) {
                Ok(attrs) => attrs,
                Err(e) => {
                    return Err(e);
                },
            };
            let second = match remove_owners(&mut work, rm) {
                Ok(attrs) => attrs,
                Err(e) => {
                    return Err(e);
                },
            };
            let ghost fv = attrs_view(first@);
            let ghost sv = attrs_view(second@);
            let mut k: usize = 0;
            while k < second.len()
                invariant
                    0 <= k <= second@.len(),
                    sv == attrs_view(second@),
                    sv.len() == second@.len(),
                    attrs_view(first@) == fv + sv.subrange(0, k as int),
                decreases second@.len() - k,
            {
                let ghost fprev = attrs_view(first@);
                first.push(second[k].clone());
                k = k + 1;
                proof {
                    assert(attrs_view(first@) =~= fprev.push(sv[k - 1]));
                    assert(fprev.push(sv[k - 1]) =~= fv + sv.subrange(0, k as int));
                }
            }
            proof {
                assert(sv.subrange(0, sv.len() as int) =~= sv);
            }
            first
        },
    };
    if work.owner_count() == 0 {
        return Err(ContractError::EmptyOwnerSet);
    }
    *config = work;
    let resp = crate::response::Response::new().add_attribute(
        "action",
        "update_owners".to_owned(),
    ).add_attributes(attrs);
    proof {
        assert(resp@.skip(1) =~= attrs_view(attrs@));
        assert(resp@[0] == ("action"@, "update_owners"@));
    }
    Ok(resp)
}

/// Law: an owner update that would leave the registry empty is rejected with
/// `EmptyOwnerSet`, whole.
pub proof fn lemma_remove_sole_owner(o: Seq<char>)
    ensures
        spec_update_owners(seq![o], None, Some(seq![ResolutionView::Resolved(o)])) == Err::<
            (Seq<Seq<char>>, Seq<(Seq<char>, Seq<char>)>),
            ErrorView,
        >(ErrorView::EmptyOwnerSet),
{
    let owners = seq![o];
    let addrs = seq![ResolutionView::Resolved(o)];
    assert(owners[0] == o);
    assert(owners.contains(o));
    assert(addrs.drop_first() =~= Seq::<ResolutionView>::empty());
    assert(spec_check_removals(owners, addrs.drop_first()) == Ok::<_, ErrorView>(Seq::<
        Seq<char>,
    >::empty()));
    let listed = seq![o] + Seq::<Seq<char>>::empty();
    assert(spec_check_removals(owners, addrs) == Ok::<_, ErrorView>(listed));
    assert(listed.contains(o)) by {
        assert(listed[0] == o);
    }
    assert(owners.drop_first() =~= Seq::<Seq<char>>::empty());
    assert(keep_not_listed(owners.drop_first(), listed) =~= Seq::<Seq<char>>::empty());
    assert(keep_not_listed(owners, listed) =~= Seq::<Seq<char>>::empty());
}

/// Law: handing the registry from one owner to another in a single update
/// (add the new owner, remove the old) succeeds, and the registry ends with
/// exactly the new owner.
pub proof fn lemma_owner_handover(o1: Seq<char>, o2: Seq<char>)
    requires
        o1 != o2,
    ensures
        spec_update_owners(
            seq![o1],
            Some(seq![ResolutionView::Resolved(o2)]),
            Some(seq![ResolutionView::Resolved(o1)]),
        ) matches Ok(p) && p.0 =~= seq![o2] && p.1 =~= seq![
            ("owner_added"@, o2),
            ("owner_removed"@, o1),
        ],
{
    let owners = seq![o1];
    let adds = seq![ResolutionView::Resolved(o2)];
    let rems = seq![ResolutionView::Resolved(o1)];
    assert(!owners.contains(o2)) by {
        if owners.contains(o2) {
            let i = choose|i: int| 0 <= i < owners.len() && owners[i] == o2;
            assert(owners[0] == o1);
        }
    }
    assert(adds.drop_first() =~= Seq::<ResolutionView>::empty());
    let grown = owners.push(o2);
    assert(spec_add_owners(grown, adds.drop_first()) == Ok::<_, ErrorView>((
        grown,
        Seq::<(Seq<char>, Seq<char>)>::empty(),
    )));
    let add_attrs = seq![("owner_added"@, o2)] + Seq::<(Seq<char>, Seq<char>)>::empty();
    assert(spec_add_owners(owners, adds) == Ok::<_, ErrorView>((grown, add_attrs)));
    assert(grown.contains(o1)) by {
        assert(grown[0] == o1);
    }
    assert(rems.drop_first() =~= Seq::<ResolutionView>::empty());
    assert(spec_check_removals(grown, rems.drop_first()) == Ok::<_, ErrorView>(Seq::<
        Seq<char>,
    >::empty()));
    let listed = seq![o1] + Seq::<Seq<char>>::empty();
    assert(spec_check_removals(grown, rems) == Ok::<_, ErrorView>(listed));
    assert(listed.contains(o1)) by {
        assert(listed[0] == o1);
    }
    assert(!listed.contains(o2)) by {
        if listed.contains(o2) {
            let i = choose|i: int| 0 <= i < listed.len() && listed[i] == o2;
            assert(listed[0] == o1);
        }
    }
    let tail = grown.drop_first();
    assert(tail =~= seq![o2]);
    assert(tail.drop_first() =~= Seq::<Seq<char>>::empty());
    assert(keep_not_listed(tail.drop_first(), listed) =~= Seq::<Seq<char>>::empty());
    assert(tail[0] == o2);
    assert(keep_not_listed(tail, listed) =~= seq![o2] + Seq::<Seq<char>>::empty());
    assert(keep_not_listed(grown, listed) =~= keep_not_listed(tail, listed));
    assert(keep_not_listed(grown, listed) =~= seq![o2]);
    let rem_attrs = removed_attrs(listed);
    lemma_removed_attrs(listed);
    assert(rem_attrs =~= seq![("owner_removed"@, o1)]);
    assert(add_attrs + rem_attrs =~= seq![("owner_added"@, o2), ("owner_removed"@, o1)]);
}

} // verus!
