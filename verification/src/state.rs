//! The variable store: a key-to-value map held as a vector of entries in
//! strictly ascending key order, with point, batch and paginated reads.
//!
//! The model of a store is the sequence of `(key, value)` pairs it holds, in
//! order; `model_wf` says the keys strictly ascend, which makes them unique
//! and fixes the enumeration order of the paginated listing.

use vstd::prelude::*;

use crate::response::{ContractError, ErrorView};
use crate::strings::{lemma_lex_asym, lemma_lex_irrefl, lemma_lex_total, lemma_lex_trans, lex_lt, str_lt};
use crate::values::{Variable, VariableView};

verus! {

use vstd::pervasive::VecAdditionalExecFns;

/// The model of a store: its entries in order.
pub type StoreModel = Seq<(Seq<char>, VariableView)>;

/// Keys strictly ascend (hence are unique).
pub open spec fn model_wf(s: StoreModel) -> bool {
    forall|i: int, j: int|
        0 <= i < j < s.len() ==> lex_lt((#[trigger] s[i]).0, (#[trigger] s[j]).0)
}

/// Some entry has key `k`.
pub open spec fn has_key(s: StoreModel, k: Seq<char>) -> bool {
    exists|i: int| 0 <= i < s.len() && (#[trigger] s[i]).0 == k
}

/// Some entry is exactly `(k, v)`.
pub open spec fn has_entry(s: StoreModel, k: Seq<char>, v: VariableView) -> bool {
    exists|i: int| 0 <= i < s.len() && #[trigger] s[i] == (k, v)
}

/// The index of the entry with key `k` (meaningful when `has_key`).
pub open spec fn idx_of(s: StoreModel, k: Seq<char>) -> int {
    choose|i: int| 0 <= i < s.len() && (#[trigger] s[i]).0 == k
}

/// The value stored under `k` (meaningful when `has_key`).
pub open spec fn value_of(s: StoreModel, k: Seq<char>) -> VariableView {
    s[idx_of(s, k)].1
}

/// Number of leading entries whose key is strictly below `k`: the position
/// where `k` sits or would be inserted.
pub open spec fn lb(s: StoreModel, k: Seq<char>) -> int
    decreases s.len(),
{
    if s.len() == 0 {
        0
    } else if lex_lt(s[0].0, k) {
        1 + lb(s.drop_first(), k)
    } else {
        0
    }
}

/// The store after inserting `(k, v)` at its ordered position (meaningful
/// when `k` is absent).
pub open spec fn insert_model(s: StoreModel, k: Seq<char>, v: VariableView) -> StoreModel {
    s.subrange(0, lb(s, k)).push((k, v)) + s.subrange(lb(s, k), s.len() as int)
}

/// The store after removing the entry with key `k` (meaningful when present).
pub open spec fn remove_model(s: StoreModel, k: Seq<char>) -> StoreModel {
    s.remove(idx_of(s, k))
}

/// The store after replacing the value under `k` (meaningful when present).
pub open spec fn update_model(s: StoreModel, k: Seq<char>, v: VariableView) -> StoreModel {
    s.update(idx_of(s, k), (k, v))
}

/// A tail of a well-formed store is well-formed.
pub proof fn lemma_wf_drop_first(s: StoreModel)
    requires
        model_wf(s),
        s.len() > 0,
    ensures
        model_wf(s.drop_first()),
{
    let t = s.drop_first();
    assert forall|i: int, j: int| 0 <= i < j < t.len() implies lex_lt(
        (#[trigger] t[i]).0,
        (#[trigger] t[j]).0,
    ) by {
        assert(t[i] == s[i + 1]);
        assert(t[j] == s[j + 1]);
    }
}

/// In a well-formed store two entries with one key are one entry.
pub proof fn lemma_key_unique(s: StoreModel, k: Seq<char>)
    requires
        model_wf(s),
    ensures
        forall|i: int, j: int|
            0 <= i < s.len() && 0 <= j < s.len() && (#[trigger] s[i]).0 == k && (#[trigger] s[j]).0
                == k ==> i == j,
{
    lemma_lex_irrefl(k);
}

/// Position and bound properties of `lb`.
pub proof fn lemma_lb_props(s: StoreModel, k: Seq<char>)
    requires
        model_wf(s),
    ensures
        0 <= lb(s, k) <= s.len(),
        forall|j: int| 0 <= j < lb(s, k) ==> lex_lt((#[trigger] s[j]).0, k),
        lb(s, k) < s.len() ==> !lex_lt(s[lb(s, k)].0, k),
    decreases s.len(),
{
    if s.len() > 0 {
        if lex_lt(s[0].0, k) {
            let t = s.drop_first();
            lemma_wf_drop_first(s);
            lemma_lb_props(t, k);
            assert forall|j: int| 0 <= j < lb(s, k) implies lex_lt((#[trigger] s[j]).0, k) by {
                if j > 0 {
                    assert(s[j] == t[j - 1]);
                }
            }
            if lb(s, k) < s.len() {
                assert(s[lb(s, k)] == t[lb(t, k)]);
            }
        }
    }
}

/// A key is present exactly when it sits at its ordered position.
pub proof fn lemma_lb_key(s: StoreModel, k: Seq<char>)
    requires
        model_wf(s),
    ensures
        has_key(s, k) <==> (lb(s, k) < s.len() && s[lb(s, k)].0 == k),
        has_key(s, k) ==> idx_of(s, k) == lb(s, k),
{
    lemma_lb_props(s, k);
    lemma_lex_irrefl(k);
    let n = lb(s, k);
    if has_key(s, k) {
        let i = idx_of(s, k);
        assert(0 <= i < s.len() && s[i].0 == k);
        if i < n {
            assert(lex_lt(s[i].0, k));
            assert(false);
        }
        if i > n {
            assert(!lex_lt(s[n].0, k));
            assert(lex_lt(s[n].0, s[i].0));
            if !lex_lt(k, s[n].0) {
                lemma_lex_total(s[n].0, k);
            }
            lemma_lex_asym(s[n].0, k);
            assert(false);
        }
        assert(i == n);
    }
    if n < s.len() && s[n].0 == k {
        assert(has_key(s, k));
    }
}

/// What an ordered insertion of an absent key does to the model.
pub proof fn lemma_insert(s: StoreModel, k: Seq<char>, v: VariableView)
    requires
        model_wf(s),
        !has_key(s, k),
    ensures
        model_wf(insert_model(s, k, v)),
        insert_model(s, k, v).len() == s.len() + 1,
        has_entry(insert_model(s, k, v), k, v),
        forall|k2: Seq<char>|
            #[trigger] has_key(insert_model(s, k, v), k2) <==> (k2 == k || has_key(s, k2)),
        forall|k2: Seq<char>, v2: VariableView|
            k2 != k ==> (#[trigger] has_entry(insert_model(s, k, v), k2, v2) <==> has_entry(
                s,
                k2,
                v2,
            )),
{
    lemma_lb_props(s, k);
    lemma_lb_key(s, k);
    let n = lb(s, k);
    let t = insert_model(s, k, v);
    assert(t.len() == s.len() + 1);
    assert(t[n] == (k, v));
    assert forall|j: int| 0 <= j < n implies #[trigger] t[j] == s[j] by {}
    assert forall|j: int| n < j < t.len() implies #[trigger] t[j] == s[j - 1] by {}
    // every key at or after the insertion point is strictly above k
    assert forall|j: int| n <= j < s.len() implies lex_lt(k, (#[trigger] s[j]).0) by {
        if !lex_lt(k, s[n].0) {
            lemma_lex_total(s[n].0, k);
            assert(s[n].0 == k);
            assert(has_key(s, k));
        }
        if j > n {
            lemma_lex_trans(k, s[n].0, s[j].0);
        }
    }
    assert forall|i: int, j: int| 0 <= i < j < t.len() implies lex_lt(
        (#[trigger] t[i]).0,
        (#[trigger] t[j]).0,
    ) by {
        if i < n && j < n {
        } else if i < n && j == n {
            assert(lex_lt(s[i].0, k));
        } else if i < n && j > n {
            assert(lex_lt(s[i].0, s[j - 1].0));
        } else if i == n {
            assert(lex_lt(k, s[j - 1].0));
        } else {
            assert(lex_lt(s[i - 1].0, s[j - 1].0));
        }
    }
    assert(has_entry(t, k, v)) by {
        assert(t[n] == (k, v));
    }
    assert forall|k2: Seq<char>| #[trigger] has_key(t, k2) implies (k2 == k || has_key(s, k2)) by {
        let i = choose|i: int| 0 <= i < t.len() && (#[trigger] t[i]).0 == k2;
        if i < n {
            assert(s[i].0 == k2);
        } else if i > n {
            assert(s[i - 1].0 == k2);
        }
    }
    assert forall|k2: Seq<char>| k2 == k || has_key(s, k2) implies #[trigger] has_key(t, k2) by {
        if k2 == k {
            assert(t[n].0 == k2);
        } else {
            let i = choose|i: int| 0 <= i < s.len() && (#[trigger] s[i]).0 == k2;
            if i < n {
                assert(t[i].0 == k2);
            } else {
                assert(t[i + 1].0 == k2);
            }
        }
    }
    assert forall|k2: Seq<char>, v2: VariableView| k2 != k implies (#[trigger] has_entry(t, k2, v2)
        <==> has_entry(s, k2, v2)) by {
        if has_entry(t, k2, v2) {
            let i = choose|i: int| 0 <= i < t.len() && #[trigger] t[i] == (k2, v2);
            if i < n {
                assert(s[i] == (k2, v2));
            } else if i > n {
                assert(s[i - 1] == (k2, v2));
            }
            assert(has_entry(s, k2, v2));
        }
        if has_entry(s, k2, v2) {
            let i = choose|i: int| 0 <= i < s.len() && #[trigger] s[i] == (k2, v2);
            if i < n {
                assert(t[i] == (k2, v2));
            } else {
                assert(t[i + 1] == (k2, v2));
            }
            assert(has_entry(t, k2, v2));
        }
    }
}

/// What removing a present key does to the model.
pub proof fn lemma_remove(s: StoreModel, k: Seq<char>)
    requires
        model_wf(s),
        has_key(s, k),
    ensures
        model_wf(remove_model(s, k)),
        remove_model(s, k).len() == s.len() - 1,
        !has_key(remove_model(s, k), k),
        forall|k2: Seq<char>|
            k2 != k ==> (#[trigger] has_key(remove_model(s, k), k2) <==> has_key(s, k2)),
        forall|k2: Seq<char>, v2: VariableView|
            k2 != k ==> (#[trigger] has_entry(remove_model(s, k), k2, v2) <==> has_entry(
                s,
                k2,
                v2,
            )),
{
    let n = idx_of(s, k);
    assert(0 <= n < s.len() && s[n].0 == k);
    lemma_key_unique(s, k);
    let t = remove_model(s, k);
    assert(t =~= s.subrange(0, n) + s.subrange(n + 1, s.len() as int));
    assert(t.len() == s.len() - 1);
    assert forall|j: int| 0 <= j < n implies #[trigger] t[j] == s[j] by {}
    assert forall|j: int| n <= j < t.len() implies #[trigger] t[j] == s[j + 1] by {}
    assert forall|i: int, j: int| 0 <= i < j < t.len() implies lex_lt(
        (#[trigger] t[i]).0,
        (#[trigger] t[j]).0,
    ) by {
        let si: int = if i < n {
            i
        } else {
            i + 1
        };
        let sj: int = if j < n {
            j
        } else {
            j + 1
        };
        assert(t[i] == s[si]);
        assert(t[j] == s[sj]);
    }
    if has_key(t, k) {
        let i = choose|i: int| 0 <= i < t.len() && (#[trigger] t[i]).0 == k;
        let si: int = if i < n {
            i
        } else {
            i + 1
        };
        assert(s[si].0 == k);
        assert(si == n);
        assert(false);
    }
    assert forall|k2: Seq<char>, v2: VariableView| k2 != k implies (#[trigger] has_entry(t, k2, v2)
        <==> has_entry(s, k2, v2)) by {
        if has_entry(t, k2, v2) {
            let i = choose|i: int| 0 <= i < t.len() && #[trigger] t[i] == (k2, v2);
            if i < n {
                assert(s[i] == (k2, v2));
            } else {
                assert(s[i + 1] == (k2, v2));
            }
            assert(has_entry(s, k2, v2));
        }
        if has_entry(s, k2, v2) {
            let i = choose|i: int| 0 <= i < s.len() && #[trigger] s[i] == (k2, v2);
            assert(i != n);
            if i < n {
                assert(t[i] == (k2, v2));
            } else {
                assert(t[i - 1] == (k2, v2));
            }
            assert(has_entry(t, k2, v2));
        }
    }
    assert forall|k2: Seq<char>| k2 != k implies (#[trigger] has_key(t, k2) <==> has_key(
        s,
        k2,
    )) by {
        if has_key(t, k2) {
            let i = choose|i: int| 0 <= i < t.len() && (#[trigger] t[i]).0 == k2;
            let si: int = if i < n {
                i
            } else {
                i + 1
            };
            assert(s[si].0 == k2);
            assert(has_key(s, k2));
        }
        if has_key(s, k2) {
            let i = choose|i: int| 0 <= i < s.len() && (#[trigger] s[i]).0 == k2;
            assert(i != n);
            if i < n {
                assert(t[i].0 == k2);
            } else {
                assert(t[i - 1].0 == k2);
            }
            assert(has_key(t, k2));
        }
    }
}

/// What replacing the value under a present key does to the model.
pub proof fn lemma_update(s: StoreModel, k: Seq<char>, v: VariableView)
    requires
        model_wf(s),
        has_key(s, k),
    ensures
        model_wf(update_model(s, k, v)),
        update_model(s, k, v).len() == s.len(),
        has_entry(update_model(s, k, v), k, v),
        forall|k2: Seq<char>| #[trigger] has_key(update_model(s, k, v), k2) <==> has_key(s, k2),
        forall|k2: Seq<char>, v2: VariableView|
            k2 != k ==> (#[trigger] has_entry(update_model(s, k, v), k2, v2) <==> has_entry(
                s,
                k2,
                v2,
            )),
{
    let n = idx_of(s, k);
    assert(0 <= n < s.len() && s[n].0 == k);
    lemma_key_unique(s, k);
    let t = update_model(s, k, v);
    assert(t[n] == (k, v));
    assert forall|j: int| 0 <= j < t.len() && j != n implies #[trigger] t[j] == s[j] by {}
    assert forall|i: int, j: int| 0 <= i < j < t.len() implies lex_lt(
        (#[trigger] t[i]).0,
        (#[trigger] t[j]).0,
    ) by {
        assert(t[i].0 == s[i].0);
        assert(t[j].0 == s[j].0);
    }
    assert(has_entry(t, k, v)) by {
        assert(t[n] == (k, v));
    }
    assert forall|k2: Seq<char>| #[trigger] has_key(t, k2) <==> has_key(s, k2) by {
        assert forall|i: int| 0 <= i < t.len() implies (#[trigger] t[i]).0 == s[i].0 by {}
        if has_key(t, k2) {
            let i = choose|i: int| 0 <= i < t.len() && (#[trigger] t[i]).0 == k2;
            assert(s[i].0 == k2);
        }
        if has_key(s, k2) {
            let i = choose|i: int| 0 <= i < s.len() && (#[trigger] s[i]).0 == k2;
            assert(t[i].0 == k2);
        }
    }
    assert forall|k2: Seq<char>, v2: VariableView| k2 != k implies (#[trigger] has_entry(t, k2, v2)
        <==> has_entry(s, k2, v2)) by {
        if has_entry(t, k2, v2) {
            let i = choose|i: int| 0 <= i < t.len() && #[trigger] t[i] == (k2, v2);
            assert(i != n);
            assert(s[i] == (k2, v2));
            assert(has_entry(s, k2, v2));
        }
        if has_entry(s, k2, v2) {
            let i = choose|i: int| 0 <= i < s.len() && #[trigger] s[i] == (k2, v2);
            assert(i != n);
            assert(t[i] == (k2, v2));
            assert(has_entry(t, k2, v2));
        }
    }
}

/// In a well-formed store, an entry pins the stored value.
pub proof fn lemma_entry_value(s: StoreModel, k: Seq<char>, v: VariableView)
    requires
        model_wf(s),
        has_entry(s, k, v),
    ensures
        has_key(s, k),
        value_of(s, k) == v,
{
    let i = choose|i: int| 0 <= i < s.len() && #[trigger] s[i] == (k, v);
    assert(s[i].0 == k);
    assert(has_key(s, k));
    lemma_key_unique(s, k);
    assert(idx_of(s, k) == i);
}

/// Number of leading entries whose key is at or below `start`: where the
/// page after cursor `start` begins.
pub open spec fn cut_at(s: StoreModel, start: Seq<char>) -> int
    decreases s.len(),
{
    if s.len() == 0 {
        0
    } else if lex_lt(start, s[0].0) {
        0
    } else {
        1 + cut_at(s.drop_first(), start)
    }
}

/// Where the page for an optional cursor begins.
pub open spec fn cut_opt(s: StoreModel, start: Option<Seq<char>>) -> int {
    match start {
        Some(st) => cut_at(s, st),
        None => 0,
    }
}

/// Position and bound properties of `cut_at`.
pub proof fn lemma_cut_props(s: StoreModel, start: Seq<char>)
    requires
        model_wf(s),
    ensures
        0 <= cut_at(s, start) <= s.len(),
        forall|j: int| 0 <= j < cut_at(s, start) ==> !lex_lt(start, (#[trigger] s[j]).0),
        cut_at(s, start) < s.len() ==> lex_lt(start, s[cut_at(s, start)].0),
    decreases s.len(),
{
    if s.len() > 0 {
        if !lex_lt(start, s[0].0) {
            let t = s.drop_first();
            lemma_wf_drop_first(s);
            lemma_cut_props(t, start);
            assert forall|j: int| 0 <= j < cut_at(s, start) implies !lex_lt(
                start,
                (#[trigger] s[j]).0,
            ) by {
                if j > 0 {
                    assert(s[j] == t[j - 1]);
                }
            }
            if cut_at(s, start) < s.len() {
                assert(s[cut_at(s, start)] == t[cut_at(t, start)]);
            }
        }
    }
}

/// `cut_at` is the only position with its properties.
pub proof fn lemma_cut_unique(s: StoreModel, start: Seq<char>, n: int)
    requires
        model_wf(s),
        0 <= n <= s.len(),
        forall|j: int| 0 <= j < n ==> !lex_lt(start, (#[trigger] s[j]).0),
        n < s.len() ==> lex_lt(start, s[n].0),
    ensures
        cut_at(s, start) == n,
{
    lemma_cut_props(s, start);
    let m = cut_at(s, start);
    if m < n {
        assert(lex_lt(start, s[m].0));
        assert(!lex_lt(start, s[m].0));
    }
    if m > n {
        assert(!lex_lt(start, s[n].0));
        assert(lex_lt(start, s[n].0));
    }
}

/// `lb` is the only position with its properties.
pub proof fn lemma_lb_unique(s: StoreModel, k: Seq<char>, n: int)
    requires
        model_wf(s),
        0 <= n <= s.len(),
        forall|j: int| 0 <= j < n ==> lex_lt((#[trigger] s[j]).0, k),
        n < s.len() ==> !lex_lt(s[n].0, k),
    ensures
        lb(s, k) == n,
{
    lemma_lb_props(s, k);
    let m = lb(s, k);
    if m < n {
        assert(lex_lt(s[m].0, k));
        assert(!lex_lt(s[m].0, k));
    }
    if m > n {
        assert(!lex_lt(s[n].0, k));
        assert(lex_lt(s[n].0, k));
    }
}

/// The page size a listing honours: the requested limit, a default of
/// thirty when none is given, never more than one hundred.
pub open spec fn effective_limit(limit: Option<u32>) -> int {
    let l: int = match limit {
        Some(l) => l as int,
        None => 30,
    };
    if l > 100 {
        100
    } else {
        l
    }
}

/// The page an enumeration returns: the entries strictly after the cursor,
/// in order, capped at `lim`.
pub open spec fn page_model(s: StoreModel, start: Option<Seq<char>>, lim: int) -> StoreModel {
    let c = cut_opt(s, start);
    let e = if c + lim <= s.len() {
        c + lim
    } else {
        s.len() as int
    };
    s.subrange(c, e)
}

/// The model of an entry vector.
pub open spec fn entries_view(s: Seq<(String, Variable)>) -> StoreModel {
    Seq::new(s.len(), |i: int| (s[i].0@, s[i].1@))
}

/// Length and indexing of `entries_view`.
pub proof fn lemma_entries_view(s: Seq<(String, Variable)>)
    ensures
        entries_view(s).len() == s.len(),
        forall|i: int| 0 <= i < s.len() ==> #[trigger] entries_view(s)[i] == (s[i].0@, s[i].1@),
{
}

/// The key-to-value map of the store: entries in strictly ascending key
/// order, held in a vector.
#[derive(Debug)]
pub struct VariableStore {
    vars: Vec<(String, Variable)>,
}

impl View for VariableStore {
    type V = StoreModel;

    closed spec fn view(&self) -> StoreModel {
        entries_view(self.vars@)
    }
}

impl VariableStore {
    /// The store is well-formed: its keys strictly ascend.
    pub open spec fn wf(&self) -> bool {
        model_wf(self@)
    }

    /// An empty store.
    pub fn new() -> (r: VariableStore)
        ensures
            r@ == Seq::<(Seq<char>, VariableView)>::empty(),
            r.wf(),
    {
        let r = VariableStore { vars: Vec::new() };
        proof {
            lemma_entries_view(r.vars@);
            assert(r@ =~= Seq::<(Seq<char>, VariableView)>::empty());
        }
        r
    }

    /// The position where `key` sits or would be inserted.
    fn locate(&self, key: &String) -> (r: usize)
        requires
            self.wf(),
        ensures
            r == lb(self@, key@),
    {
        let n = self.vars.len();
        let mut i: usize = 0;
        proof {
            lemma_entries_view(self.vars@);
        }
        loop
            invariant
                self.wf(),
                n == self.vars@.len(),
                self@.len() == n,
                0 <= i <= n,
                forall|j: int| 0 <= j < i ==> lex_lt((#[trigger] self@[j]).0, key@),
                forall|j: int| 0 <= j < n ==> #[trigger] self@[j] == (self.vars@[j].0@, self.vars@[j].1@),
            ensures
                i == lb(self@, key@),
            decreases n - i,
        {
            if i == n {
                proof {
                    lemma_lb_unique(self@, key@, i as int);
                }
                break ;
            }
            if str_lt(self.vars[i].0.as_str(), key.as_str()) {
                i = i + 1;
            } else {
                proof {
                    lemma_lb_unique(self@, key@, i as int);
                }
                break ;
            }
        }
        i
    }

    /// Looks one key up; absent keys fail with `KeyNotFound`.
    pub fn get(&self, key: &String) -> (r: Result<Variable, ContractError>)
        requires
            self.wf(),
        ensures
            match r {
                Ok(v) => has_key(self@, key@) && has_entry(self@, key@, v@),
                Err(e) => !has_key(self@, key@) && e@ == ErrorView::KeyNotFound(key@),
            },
    {
        proof {
            lemma_entries_view(self.vars@);
            lemma_lb_key(self@, key@);
        }
        let i = self.locate(key);
        if i < self.vars.len() && self.vars[i].0.eq(key) {
            let v = self.vars[i].1.clone();
            proof {
                assert(self@[i as int] == (key@, v@));
            }
            Ok(v)
        } else {
            Err(ContractError::KeyNotFound { key: key.clone() })
        }
    }

    /// Creates an entry under an absent key; a present key fails with
    /// `KeyAlreadyRegistered`, carrying the value stored under it, and
    /// leaves the store unchanged.
    pub fn register(&mut self, key: String, value: Variable) -> (r: Result<(), ContractError>)
        requires
            old(self).wf(),
        ensures
            final (self).wf(),
            match r {
                Ok(_) => !has_key(old(self)@, key@) && final (self)@ == insert_model(
                    old(self)@,
                    key@,
                    value@,
                ),
                Err(e) => {
                    &&& has_key(old(self)@, key@)
                    &&& e@ == ErrorView::KeyAlreadyRegistered(key@, value_of(old(self)@, key@))
                    &&& final (self)@ == old(self)@
                },
            },
    {
        proof {
            lemma_entries_view(self.vars@);
            lemma_lb_key(self@, key@);
        }
        let i = self.locate(&key);
        if i < self.vars.len() && self.vars[i].0.eq(&key) {
            let existing = self.vars[i].1.clone();
            proof {
                assert(self@[i as int] == (key@, existing@));
                lemma_entry_value(self@, key@, existing@);
            }
            return Err(ContractError::KeyAlreadyRegistered { key, value: existing });
        }
        let ghost pre = self@;
        let ghost prevars = self.vars@;
        proof {
            lemma_lb_props(pre, key@);
            lemma_entries_view(prevars);
            assert(pre.len() == prevars.len());
            lemma_insert(pre, key@, value@);
            prevars.insert_ensures(i as int, (key, value));
            pre.insert_ensures(i as int, (key@, value@));
        }
        self.vars.insert(i, (key, value));
        proof {
            lemma_entries_view(self.vars@);
            assert(insert_model(pre, key@, value@) =~= pre.insert(i as int, (key@, value@)));
            assert(self@ =~= pre.insert(i as int, (key@, value@)));
        }
        Ok(())
    }

    /// Replaces the value under a present key; an absent key fails with
    /// `KeyNotFound` and leaves the store unchanged.
    pub fn update(&mut self, key: String, value: Variable) -> (r: Result<(), ContractError>)
        requires
            old(self).wf(),
        ensures
            final (self).wf(),
            match r {
                Ok(_) => has_key(old(self)@, key@) && final (self)@ == update_model(
                    old(self)@,
                    key@,
                    value@,
                ),
                Err(e) => {
                    &&& !has_key(old(self)@, key@)
                    &&& e@ == ErrorView::KeyNotFound(key@)
                    &&& final (self)@ == old(self)@
                },
            },
    {
        proof {
            lemma_entries_view(self.vars@);
            lemma_lb_key(self@, key@);
        }
        let i = self.locate(&key);
        if i < self.vars.len() && self.vars[i].0.eq(&key) {
            let ghost pre = self@;
            proof {
                lemma_update(pre, key@, value@);
            }
            self.vars.set(i, (key, value));
            proof {
                lemma_entries_view(self.vars@);
                assert(self@ =~= update_model(pre, key@, value@));
            }
            Ok(())
        } else {
            Err(ContractError::KeyNotFound { key })
        }
    }

    /// Deletes the entry under a present key and returns the removed value;
    /// an absent key fails with `KeyNotFound` and leaves the store unchanged.
    pub fn remove(&mut self, key: &String) -> (r: Result<Variable, ContractError>)
        requires
            old(self).wf(),
        ensures
            final (self).wf(),
            match r {
                Ok(v) => {
                    &&& has_key(old(self)@, key@)
                    &&& has_entry(old(self)@, key@, v@)
                    &&& final (self)@ == remove_model(old(self)@, key@)
                },
                Err(e) => {
                    &&& !has_key(old(self)@, key@)
                    &&& e@ == ErrorView::KeyNotFound(key@)
                    &&& final (self)@ == old(self)@
                },
            },
    {
        proof {
            lemma_entries_view(self.vars@);
            lemma_lb_key(self@, key@);
        }
        let i = self.locate(key);
        if i < self.vars.len() && self.vars[i].0.eq(key) {
            let ghost pre = self@;
            proof {
                lemma_remove(pre, key@);
                lemma_key_unique(pre, key@);
            }
            let (_, removed) = self.vars.remove(i);
            proof {
                lemma_entries_view(self.vars@);
                assert(pre[i as int] == (key@, removed@));
                assert(self@ =~= pre.remove(i as int));
                assert(idx_of(pre, key@) == i as int);
            }
            Ok(removed)
        } else {
            Err(ContractError::KeyNotFound { key: key.clone() })
        }
    }

    /// Creates or replaces the entry under `key`.
    pub fn put(&mut self, key: String, value: Variable)
        requires
            old(self).wf(),
        ensures
            final (self).wf(),
            has_entry(final (self)@, key@, value@),
            forall|k2: Seq<char>|
                #[trigger] has_key(final (self)@, k2) <==> (k2 == key@ || has_key(old(self)@, k2)),
            forall|k2: Seq<char>, v2: VariableView|
                k2 != key@ ==> (#[trigger] has_entry(final (self)@, k2, v2) <==> has_entry(
                    old(self)@,
                    k2,
                    v2,
                )),
    {
        proof {
            lemma_entries_view(self.vars@);
            lemma_lb_key(self@, key@);
        }
        let i = self.locate(&key);
        let ghost pre = self@;
        if i < self.vars.len() && self.vars[i].0.eq(&key) {
            proof {
                lemma_update(pre, key@, value@);
            }
            self.vars.set(i, (key, value));
            proof {
                lemma_entries_view(self.vars@);
                assert(self@ =~= update_model(pre, key@, value@));
            }
        } else {
            let ghost prevars = self.vars@;
            proof {
                lemma_lb_props(pre, key@);
                lemma_entries_view(prevars);
                assert(pre.len() == prevars.len());
                lemma_insert(pre, key@, value@);
                prevars.insert_ensures(i as int, (key, value));
                pre.insert_ensures(i as int, (key@, value@));
            }
            self.vars.insert(i, (key, value));
            proof {
                lemma_entries_view(self.vars@);
                assert(insert_model(pre, key@, value@) =~= pre.insert(i as int, (key@, value@)));
                assert(self@ =~= pre.insert(i as int, (key@, value@)));
            }
        }
    }

    /// A copy of this store.
    pub fn snapshot(&self) -> (r: VariableStore)
        ensures
            r@ == self@,
    {
        let mut vars: Vec<(String, Variable)> = Vec::new();
        let mut i: usize = 0;
        proof {
            lemma_entries_view(self.vars@);
        }
        while i < self.vars.len()
            invariant
                0 <= i <= self.vars@.len(),
                entries_view(vars@) =~= self@.subrange(0, i as int),
                self@.len() == self.vars@.len(),
                forall|j: int|
                    0 <= j < self.vars@.len() ==> #[trigger] self@[j] == (
                        self.vars@[j].0@,
                        self.vars@[j].1@,
                    ),
            decreases self.vars@.len() - i,
        {
            let ghost prev = vars@;
            let k = self.vars[i].0.clone();
            let v = self.vars[i].1.clone();
            vars.push((k, v));
            i = i + 1;
            proof {
                lemma_entries_view(prev);
                lemma_entries_view(vars@);
                assert(entries_view(vars@) =~= self@.subrange(0, i as int));
            }
        }
        let r = VariableStore { vars };
        proof {
            assert(self@.subrange(0, self@.len() as int) =~= self@);
            assert(r@ =~= self@);
        }
        r
    }

    /// The entries, in ascending key order.
    pub fn into_entries(self) -> (r: Vec<(String, Variable)>)
        ensures
            entries_view(r@) == self@,
    {
        self.vars
    }

    /// Looks a batch of keys up; fails with `KeyNotFound` naming the first
    /// absent key, and otherwise returns one entry per requested key, in
    /// ascending key order with no extras.
    pub fn get_many(&self, keys: &Vec<String>) -> (r: Result<VariableStore, ContractError>)
        requires
            self.wf(),
        ensures
            match r {
                Ok(out) => {
                    &&& out.wf()
                    &&& forall|j: int|
                        0 <= j < keys@.len() ==> has_key(self@, (#[trigger] keys@[j])@)
                    &&& forall|k2: Seq<char>|
                        #[trigger] has_key(out@, k2) <==> exists|j: int|
                            0 <= j < keys@.len() && (#[trigger] keys@[j])@ == k2
                    &&& forall|k2: Seq<char>, v2: VariableView|
                        #[trigger] has_entry(out@, k2, v2) ==> has_entry(self@, k2, v2)
                },
                Err(e) => exists|j: int|
                    {
                        &&& 0 <= j < keys@.len()
                        &&& e@ == ErrorView::KeyNotFound((#[trigger] keys@[j])@)
                        &&& !has_key(self@, keys@[j]@)
                        &&& forall|m: int| 0 <= m < j ==> has_key(self@, (#[trigger] keys@[m])@)
                    },
            },
    {
        let mut out = VariableStore::new();
        let mut i: usize = 0;
        while i < keys.len()
            invariant
                self.wf(),
                out.wf(),
                0 <= i <= keys@.len(),
                forall|j: int| 0 <= j < i ==> has_key(self@, (#[trigger] keys@[j])@),
                forall|k2: Seq<char>|
                    #[trigger] has_key(out@, k2) <==> exists|j: int|
                        0 <= j < i && (#[trigger] keys@[j])@ == k2,
                forall|k2: Seq<char>, v2: VariableView|
                    #[trigger] has_entry(out@, k2, v2) ==> has_entry(self@, k2, v2),
            decreases keys@.len() - i,
        {
            let key = &keys[i];
            match self.get(key) {
                Ok(v) => {
                    proof {
                        lemma_entry_value(self@, key@, v@);
                    }
                    out.put(key.clone(), v);
                    i = i + 1;
                    proof {
                        assert forall|k2: Seq<char>| #[trigger] has_key(out@, k2) implies exists|
                            j: int,
                        |
                            0 <= j < i && (#[trigger] keys@[j])@ == k2 by {
                            if k2 == key@ {
                                assert(keys@[i - 1]@ == k2);
                            } else {
                                let j = choose|j: int| 0 <= j < i - 1 && (#[trigger] keys@[j])@ == k2;
                                assert(0 <= j < i && keys@[j]@ == k2);
                            }
                        }
                        assert forall|k2: Seq<char>, v2: VariableView| #[trigger] has_entry(
                            out@,
                            k2,
                            v2,
                        ) implies has_entry(self@, k2, v2) by {
                            if k2 == key@ {
                                lemma_key_unique(out@, k2);
                                lemma_entry_value(out@, k2, v2);
                                lemma_entry_value(out@, k2, v@);
                            }
                        }
                    }
                },
                Err(e) => {
                    return Err(e);
                },
            }
        }
        Ok(out)
    }

    /// The page of entries strictly after the cursor, in ascending key
    /// order, capped at the effective limit.
    pub fn list(&self, start_after: &Option<String>, limit: Option<u32>) -> (r: Vec<
        (String, Variable),
    >)
        requires
            self.wf(),
        ensures
            entries_view(r@) == page_model(
                self@,
                match start_after {
                    Some(s) => Some(s@),
                    None => None,
                },
                effective_limit(limit),
            ),
    {
        let ghost st: Option<Seq<char>> = match start_after {
            Some(s) => Some(s@),
            None => None,
        };
        let n = self.vars.len();
        proof {
            lemma_entries_view(self.vars@);
        }
        let mut c: usize = 0;
        match start_after {
            None => {
                proof {
                    assert(cut_opt(self@, st) == 0);
                }
            },
            Some(start) => {
                loop
                    invariant
                        self.wf(),
                        n == self.vars@.len(),
                        self@.len() == n,
                        0 <= c <= n,
                        st == Some(start@),
                        forall|j: int| 0 <= j < c ==> !lex_lt(start@, (#[trigger] self@[j]).0),
                        forall|j: int|
                            0 <= j < n ==> #[trigger] self@[j] == (
                                self.vars@[j].0@,
                                self.vars@[j].1@,
                            ),
                    ensures
                        c == cut_opt(self@, st),
                    decreases n - c,
                {
                    if c == n {
                        proof {
                            lemma_cut_unique(self@, start@, c as int);
                        }
                        break ;
                    }
                    if str_lt(start.as_str(), self.vars[c].0.as_str()) {
                        proof {
                            lemma_cut_unique(self@, start@, c as int);
                        }
                        break ;
                    }
                    c = c + 1;
                }
            },
        }
        let lim: u32 = match limit {
            Some(l) => if l > 100 {
                100
            } else {
                l
            },
            None => 30,
        };
        let ghost e: int = if c as int + effective_limit(limit) <= n as int {
            c as int + effective_limit(limit)
        } else {
            n as int
        };
        let mut out: Vec<(String, Variable)> = Vec::new();
        let mut j: usize = c;
        let mut taken: u32 = 0;
        loop
            invariant
                self.wf(),
                n == self.vars@.len(),
                self@.len() == n,
                c <= j <= n,
                taken == j - c,
                taken <= lim,
                lim == effective_limit(limit),
                e == if c as int + lim as int <= n as int {
                    c as int + lim as int
                } else {
                    n as int
                },
                entries_view(out@) =~= self@.subrange(c as int, j as int),
                forall|jj: int|
                    0 <= jj < n ==> #[trigger] self@[jj] == (self.vars@[jj].0@, self.vars@[jj].1@),
            ensures
                entries_view(out@) =~= self@.subrange(c as int, e),
            decreases n - j,
        {
            if j == n || taken == lim {
                proof {
                    assert(j as int == e);
                }
                break ;
            }
            let ghost prev = out@;
            let k = self.vars[j].0.clone();
            let v = self.vars[j].1.clone();
            out.push((k, v));
            j = j + 1;
            taken = taken + 1;
            proof {
                lemma_entries_view(prev);
                lemma_entries_view(out@);
                assert(entries_view(out@) =~= self@.subrange(c as int, j as int));
            }
        }
        proof {
            assert(entries_view(out@) =~= page_model(self@, st, effective_limit(limit)));
        }
        out
    }
}

/// Law: a value registered under an absent key is read back exactly.
pub proof fn lemma_register_then_get(s: StoreModel, k: Seq<char>, v: VariableView)
    requires
        model_wf(s),
        !has_key(s, k),
    ensures
        has_key(insert_model(s, k, v), k),
        value_of(insert_model(s, k, v), k) == v,
{
    lemma_insert(s, k, v);
    lemma_entry_value(insert_model(s, k, v), k, v);
}

/// Law: after a registration is removed again, the key reads as absent.
pub proof fn lemma_remove_then_get(s: StoreModel, k: Seq<char>, v: VariableView)
    requires
        model_wf(s),
        !has_key(s, k),
    ensures
        !has_key(remove_model(insert_model(s, k, v), k), k),
{
    lemma_insert(s, k, v);
    lemma_remove(insert_model(s, k, v), k);
}

} // verus!
