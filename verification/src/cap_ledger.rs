//! What the grants of capabilities have left of their budgets.
use vstd::prelude::*;

use crate::names::NameMap;
use crate::text::{decimal, decimal_text, join2, join5, lemma_lex_irreflexive, lemma_lex_total,
    lemma_lex_transitive, lex_lt, str_eq, str_lt};

verus! {

/// An amount of a dimension.
pub type Amount = (Seq<char>, u64);

/// Whether amounts stand in the order of their dimensions, each of which occurs once.
pub open spec fn by_dimension(s: Seq<Amount>) -> bool {
    forall|i: int, j: int| 0 <= i < j < s.len() ==> lex_lt((#[trigger] s[i]).0, (#[trigger] s[j]).0)
}

pub open spec fn amounts(s: Seq<(String, u64)>) -> Seq<Amount> {
    Seq::new(s.len(), |i: int| (s[i].0@, s[i].1))
}

/// Amounts by dimension, in the order of the names of the dimensions.
#[derive(Debug, PartialEq, Eq)]
pub struct BudgetMap {
    entries: Vec<(String, u64)>,
}

impl View for BudgetMap {
    type V = Seq<Amount>;

    closed spec fn view(&self) -> Seq<Amount> {
        amounts(self.entries@)
    }
}

/// The position of a dimension, or the number of amounts.
pub open spec fn dim_index(s: Seq<Amount>, dim: Seq<char>) -> int
    decreases s.len(),
{
    if s.len() == 0 {
        0
    } else if s[0].0 == dim {
        0
    } else {
        1 + dim_index(s.drop_first(), dim)
    }
}

/// The amount of a dimension.
pub open spec fn amount_of(s: Seq<Amount>, dim: Seq<char>) -> Option<u64> {
    if dim_index(s, dim) < s.len() {
        Some(s[dim_index(s, dim)].1)
    } else {
        None
    }
}

proof fn lemma_dim_index_is(s: Seq<Amount>, dim: Seq<char>, k: int)
    requires
        0 <= k <= s.len(),
        k < s.len() ==> s[k].0 == dim,
        forall|i: int| 0 <= i < k ==> (#[trigger] s[i]).0 != dim,
    ensures
        dim_index(s, dim) == k,
    decreases s.len(),
{
    if s.len() > 0 {
        if k > 0 {
            assert(s[0].0 != dim);
            let rest = s.drop_first();
            assert forall|i: int| 0 <= i < k - 1 implies (#[trigger] rest[i]).0 != dim by {
                assert(rest[i] == s[i + 1]);
            }
            lemma_dim_index_is(rest, dim, k - 1);
        }
    }
}

pub proof fn lemma_dim_index(s: Seq<Amount>, dim: Seq<char>)
    ensures
        0 <= dim_index(s, dim) <= s.len(),
        dim_index(s, dim) < s.len() ==> s[dim_index(s, dim)].0 == dim,
        forall|i: int| 0 <= i < dim_index(s, dim) ==> (#[trigger] s[i]).0 != dim,
    decreases s.len(),
{
    if s.len() > 0 && s[0].0 != dim {
        lemma_dim_index(s.drop_first(), dim);
        assert forall|i: int| 0 <= i < dim_index(s, dim) implies (#[trigger] s[i]).0 != dim by {
            if i > 0 {
                assert(s.drop_first()[i - 1] == s[i]);
            }
        }
    }
}

/// The amounts with that of one dimension set.
pub open spec fn amount_set(s: Seq<Amount>, dim: Seq<char>, amount: u64) -> Seq<Amount>
    decreases s.len(),
{
    if s.len() == 0 {
        seq![(dim, amount)]
    } else if s.last().0 == dim {
        s.drop_last().push((dim, amount))
    } else if lex_lt(dim, s.last().0) {
        amount_set(s.drop_last(), dim, amount).push(s.last())
    } else {
        s.push((dim, amount))
    }
}

proof fn lemma_amount_set(s: Seq<Amount>, dim: Seq<char>, amount: u64)
    requires
        by_dimension(s),
    ensures
        by_dimension(amount_set(s, dim, amount)),
        forall|i: int|
            0 <= i < amount_set(s, dim, amount).len() ==> {
                let x = (#[trigger] amount_set(s, dim, amount)[i]).0;
                x == dim || exists|k: int| 0 <= k < s.len() && (#[trigger] s[k]).0 == x
            },
    decreases s.len(),
{
    let r = amount_set(s, dim, amount);
    if s.len() > 0 {
        let front = s.drop_last();
        assert(by_dimension(front));
        if s.last().0 == dim {
            assert forall|i: int| 0 <= i < r.len() implies {
                let x = (#[trigger] r[i]).0;
                x == dim || exists|k: int| 0 <= k < s.len() && (#[trigger] s[k]).0 == x
            } by {
                assert(s[i].0 == r[i].0);
            }
            assert forall|i: int, j: int| 0 <= i < j < r.len() implies lex_lt(
                (#[trigger] r[i]).0,
                (#[trigger] r[j]).0,
            ) by {
                assert(r[i].0 == s[i].0 && r[j].0 == s[j].0);
            }
        } else if lex_lt(dim, s.last().0) {
            lemma_amount_set(front, dim, amount);
            let q = amount_set(front, dim, amount);
            assert forall|i: int| 0 <= i < r.len() implies {
                let x = (#[trigger] r[i]).0;
                x == dim || exists|k: int| 0 <= k < s.len() && (#[trigger] s[k]).0 == x
            } by {
                if i < q.len() {
                    let x = q[i].0;
                    if x != dim {
                        let k = choose|k: int| 0 <= k < front.len() && (#[trigger] front[k]).0 == x;
                        assert(s[k].0 == x);
                    }
                } else {
                    assert(s[s.len() - 1].0 == r[i].0);
                }
            }
            assert forall|i: int, j: int| 0 <= i < j < r.len() implies lex_lt(
                (#[trigger] r[i]).0,
                (#[trigger] r[j]).0,
            ) by {
                if j < q.len() {
                    assert(r[i] == q[i] && r[j] == q[j]);
                } else {
                    let x = q[i].0;
                    if x != dim {
                        let k = choose|k: int| 0 <= k < front.len() && (#[trigger] front[k]).0 == x;
                        assert(s[k].0 == x && s[s.len() - 1] == s.last());
                    }
                }
            }
        } else {
            lemma_lex_total(dim, s.last().0);
            assert forall|i: int| 0 <= i < r.len() implies {
                let x = (#[trigger] r[i]).0;
                x == dim || exists|k: int| 0 <= k < s.len() && (#[trigger] s[k]).0 == x
            } by {
                if i < s.len() {
                    assert(s[i].0 == r[i].0);
                }
            }
            assert forall|i: int, j: int| 0 <= i < j < r.len() implies lex_lt(
                (#[trigger] r[i]).0,
                (#[trigger] r[j]).0,
            ) by {
                assert(r[i] == s[i]);
                if j < s.len() {
                    assert(r[j] == s[j]);
                } else if i < s.len() - 1 {
                    assert(s[s.len() - 1] == s.last());
                    lemma_lex_transitive(s[i].0, s.last().0, dim);
                }
            }
        }
    }
}

impl BudgetMap {
    #[verifier::type_invariant]
    spec fn wf(&self) -> bool {
        by_dimension(amounts(self.entries@))
    }

    pub fn new() -> (r: Self)
        ensures
            r@ == Seq::<Amount>::empty(),
            by_dimension(r@),
    {
        let r = BudgetMap { entries: Vec::new() };
        assert(r@ =~= Seq::<Amount>::empty());
        r
    }

    /// Sets the amount of a dimension.
    pub fn insert(&mut self, dim: String, amount: u64)
        ensures
            final(self)@ == amount_set(old(self)@, dim@, amount),
            by_dimension(final(self)@),
    {
        proof {
            use_type_invariant(&*self);
        }
        let ghost s = amounts(self.entries@);
        let ghost name = dim@;
        let mut entries: Vec<(String, u64)> = Vec::new();
        std::mem::swap(&mut entries, &mut self.entries);
        let n: usize = entries.len();
        let mut i: usize = n;
        proof {
            lemma_amount_set(s, name, amount);
            assert(s.take(n as int) =~= s);
            assert(amount_set(s, name, amount) + s.skip(n as int) =~= amount_set(
                s,
                name,
                amount,
            ));
        }
        while i > 0 && str_lt(dim.as_str(), entries[i - 1].0.as_str())
            invariant
                i <= n,
                n == entries@.len(),
                s == amounts(entries@),
                name == dim@,
                amount_set(s, name, amount) == amount_set(s.take(i as int), name, amount) + s.skip(
                    i as int,
                ),
            decreases i,
        {
            proof {
                assert(s.take(i as int).last() == s[i - 1]);
                assert(s[i - 1].0 == entries@[i - 1].0@);
                lemma_lex_irreflexive(name);
                assert(s.take(i as int).drop_last() =~= s.take(i - 1));
                assert(amount_set(s.take(i - 1), name, amount).push(s[i - 1]) + s.skip(i as int)
                    =~= amount_set(s.take(i - 1), name, amount) + s.skip(i - 1));
            }
            i -= 1;
        }
        proof {
            if i > 0 {
                assert(s.take(i as int).last() == s[i - 1]);
                assert(s[i - 1].0 == entries@[i - 1].0@);
            }
        }
        if i > 0 && str_eq(entries[i - 1].0.as_str(), dim.as_str()) {
            entries.set(i - 1, (dim, amount));
            assert(amounts(entries@) =~= s.take(i as int).drop_last().push((name, amount)) + s.skip(
                i as int,
            ));
        } else {
            entries.insert(i, (dim, amount));
            assert(amount_set(s.take(i as int), name, amount) =~= s.take(i as int).push(
                (name, amount),
            ));
            assert(amounts(entries@) =~= s.take(i as int).push((name, amount)) + s.skip(i as int));
        }
        self.entries = entries;
    }

    pub fn len(&self) -> (r: usize)
        ensures
            r == self@.len(),
    {
        self.entries.len()
    }

    /// The amount at position `i`.
    pub fn entry(&self, i: usize) -> (r: (&String, u64))
        requires
            i < self@.len(),
        ensures
            (r.0@, r.1) == self@[i as int],
    {
        (&self.entries[i].0, self.entries[i].1)
    }

    /// The amount of a dimension.
    pub fn get(&self, dim: &str) -> (r: Option<u64>)
        ensures
            r == amount_of(self@, dim@),
    {
        let ghost s = self@;
        let mut i: usize = 0;
        while i < self.entries.len()
            invariant
                i <= self.entries@.len(),
                s == amounts(self.entries@),
                forall|k: int| 0 <= k < i ==> (#[trigger] s[k]).0 != dim@,
            decreases self.entries@.len() - i,
        {
            assert(s[i as int] == (self.entries@[i as int].0@, self.entries@[i as int].1));
            if str_eq(self.entries[i].0.as_str(), dim) {
                proof {
                    lemma_dim_index_is(s, dim@, i as int);
                }
                return Some(self.entries[i].1);
            }
            i += 1;
        }
        proof {
            lemma_dim_index_is(s, dim@, i as int);
        }
        None
    }
}

/// A budget in one dimension.
#[derive(Clone, Copy, Debug, PartialEq, Eq, Structural)]
pub struct BudgetEntry {
    pub limit: u64,
    pub reserved: u64,
    pub spent: u64,
}

/// The budgets of a grant.
pub type GrantView = Map<Seq<char>, BudgetEntry>;

/// The budgets of all grants.
#[derive(Debug)]
pub struct BudgetLedger {
    pub grants: NameMap<NameMap<BudgetEntry>>,
}

pub open spec fn grants_view(m: Map<Seq<char>, NameMap<BudgetEntry>>) -> Map<
    Seq<char>,
    GrantView,
> {
    m.map_values(|x: NameMap<BudgetEntry>| x.map())
}

impl View for BudgetLedger {
    type V = Map<Seq<char>, GrantView>;

    open spec fn view(&self) -> Map<Seq<char>, GrantView> {
        grants_view(self.grants.map())
    }
}

/// What an intent has reserved.
#[derive(Debug)]
pub struct CapReservation {
    pub intent_hash: [u8; 32],
    pub cap_name: String,
    pub effect_kind: String,
    pub cap_type: String,
    pub enforcer_module: String,
    pub reserve: BudgetMap,
    pub expiry_ns: Option<u64>,
}

/// Why a budget does not allow something.
#[derive(Debug)]
pub struct BudgetError {
    message: String,
}

impl BudgetError {
    pub closed spec fn text(&self) -> Seq<char> {
        self.message@
    }

    pub fn new(message: String) -> (r: Self)
        ensures
            r.text() == message@,
    {
        BudgetError { message }
    }

    pub fn message(&self) -> (r: &str)
        ensures
            r@ == self.text(),
    {
        self.message.as_str()
    }
}

/// The sum, or the greatest number where the sum is greater.
pub open spec fn capped(a: u64, b: u64) -> u64 {
    if a + b > u64::MAX {
        u64::MAX
    } else {
        (a + b) as u64
    }
}

pub open spec fn place(grant: Seq<char>, dim: Seq<char>) -> Seq<char> {
    grant + ":"@ + dim
}

pub open spec fn exceeded_text(grant: Seq<char>, dim: Seq<char>, total: u64, limit: u64) -> Seq<char> {
    "budget exceeded for "@ + place(grant, dim) + " ("@ + decimal(total as nat) + " > "@ + decimal(
        limit as nat,
    ) + ")"@
}

fn exceeded(grant: &str, dim: &str, total: u64, limit: u64) -> (r: BudgetError)
    ensures
        r.text() == exceeded_text(grant@, dim@, total, limit),
{
    let t = decimal_text(total);
    let l = decimal_text(limit);
    let at = join2(grant, ":");
    let at = join2(at.as_str(), dim);
    let head = join2("budget exceeded for ", at.as_str());
    let head = join5(head.as_str(), " (", t.as_str(), " > ", l.as_str());
    BudgetError::new(join2(head.as_str(), ")"))
}

fn at_place(what: &str, grant: &str, dim: &str) -> (r: BudgetError)
    ensures
        r.text() == what@ + place(grant@, dim@),
{
    let at = join2(grant, ":");
    let at = join2(at.as_str(), dim);
    BudgetError::new(join2(what, at.as_str()))
}

/// What a reservation would bring a budget to.
pub open spec fn reserve_total(e: BudgetEntry, amount: u64) -> u64 {
    capped(capped(e.spent, e.reserved), amount)
}

/// Why one of the first `n` amounts cannot be reserved.
pub open spec fn over_reserved(
    grant: Seq<char>,
    entries: GrantView,
    reserve: Seq<Amount>,
    n: nat,
) -> Option<Seq<char>>
    decreases n,
{
    if n == 0 || n > reserve.len() {
        None
    } else {
        match over_reserved(grant, entries, reserve, (n - 1) as nat) {
            Some(m) => Some(m),
            None => {
                let (dim, amount) = reserve[n - 1];
                if entries.contains_key(dim) && reserve_total(entries[dim], amount)
                    > entries[dim].limit {
                    Some(
                        exceeded_text(
                            grant,
                            dim,
                            reserve_total(entries[dim], amount),
                            entries[dim].limit,
                        ),
                    )
                } else {
                    None
                }
            },
        }
    }
}

proof fn lemma_over_stands(
    grant: Seq<char>,
    entries: GrantView,
    reserve: Seq<Amount>,
    n: nat,
    k: nat,
)
    requires
        n <= k <= reserve.len(),
        over_reserved(grant, entries, reserve, n) is Some,
    ensures
        over_reserved(grant, entries, reserve, k) == over_reserved(grant, entries, reserve, n),
    decreases k,
{
    if n < k {
        lemma_over_stands(grant, entries, reserve, n, (k - 1) as nat);
    }
}

/// Budgets with the first `n` amounts reserved. What a grant has no budget for is not counted.
pub open spec fn reserved(entries: GrantView, reserve: Seq<Amount>, n: nat) -> GrantView
    decreases n,
{
    if n == 0 || n > reserve.len() {
        entries
    } else {
        let done = reserved(entries, reserve, (n - 1) as nat);
        let (dim, amount) = reserve[n - 1];
        if done.contains_key(dim) {
            let e = done[dim];
            done.insert(dim, BudgetEntry { reserved: capped(e.reserved, amount), ..e })
        } else {
            done
        }
    }
}

/// Budgets with the first `n` reservations given back, and why the next could not be.
pub open spec fn released(
    grant: Seq<char>,
    entries: GrantView,
    reserve: Seq<Amount>,
    n: nat,
) -> (GrantView, Option<Seq<char>>)
    decreases n,
{
    if n == 0 || n > reserve.len() {
        (entries, None)
    } else {
        let (done, fault) = released(grant, entries, reserve, (n - 1) as nat);
        let (dim, amount) = reserve[n - 1];
        if fault is Some || !done.contains_key(dim) {
            (done, fault)
        } else if done[dim].reserved < amount {
            (done, Some("reservation underflow for "@ + place(grant, dim)))
        } else {
            let e = done[dim];
            (
                done.insert(dim, BudgetEntry { reserved: (e.reserved - amount) as u64, ..e }),
                None,
            )
        }
    }
}

/// Budgets with the first `n` amounts spent, and why the next could not be.
pub open spec fn spent(
    grant: Seq<char>,
    entries: GrantView,
    reserve: Seq<Amount>,
    usage: Seq<Amount>,
    n: nat,
) -> (GrantView, Option<Seq<char>>)
    decreases n,
{
    if n == 0 || n > usage.len() {
        (entries, None)
    } else {
        let (done, fault) = spent(grant, entries, reserve, usage, (n - 1) as nat);
        let (dim, amount) = usage[n - 1];
        if fault is Some || !done.contains_key(dim) {
            (done, fault)
        } else if amount_of(reserve, dim) matches Some(held) && amount > held {
            (done, Some("usage exceeds reservation for "@ + place(grant, dim)))
        } else if capped(done[dim].spent, amount) > done[dim].limit {
            (
                done,
                Some(
                    exceeded_text(
                        grant,
                        dim,
                        capped(done[dim].spent, amount),
                        done[dim].limit,
                    ),
                ),
            )
        } else {
            let e = done[dim];
            (done.insert(dim, BudgetEntry { spent: capped(e.spent, amount), ..e }), None)
        }
    }
}

/// Budgets after a reservation has been settled, and why it could not be settled in full. What was
/// settled before the fault stays settled.
pub open spec fn settled(
    grant: Seq<char>,
    entries: GrantView,
    reserve: Seq<Amount>,
    usage: Seq<Amount>,
) -> (GrantView, Option<Seq<char>>) {
    let (free, fault) = released(grant, entries, reserve, reserve.len());
    if fault is Some {
        (free, fault)
    } else {
        spent(grant, free, reserve, usage, usage.len())
    }
}

proof fn lemma_released_stands(
    grant: Seq<char>,
    entries: GrantView,
    reserve: Seq<Amount>,
    n: nat,
    k: nat,
)
    requires
        n <= k <= reserve.len(),
        released(grant, entries, reserve, n).1 is Some,
    ensures
        released(grant, entries, reserve, k) == released(grant, entries, reserve, n),
    decreases k,
{
    if n < k {
        lemma_released_stands(grant, entries, reserve, n, (k - 1) as nat);
    }
}

proof fn lemma_spent_stands(
    grant: Seq<char>,
    entries: GrantView,
    reserve: Seq<Amount>,
    usage: Seq<Amount>,
    n: nat,
    k: nat,
)
    requires
        n <= k <= usage.len(),
        spent(grant, entries, reserve, usage, n).1 is Some,
    ensures
        spent(grant, entries, reserve, usage, k) == spent(grant, entries, reserve, usage, n),
    decreases k,
{
    if n < k {
        lemma_spent_stands(grant, entries, reserve, usage, n, (k - 1) as nat);
    }
}

/// The budget that a limit sets: what was reserved and spent under it before stays so.
pub open spec fn limited(before: Option<GrantView>, dim: Seq<char>, limit: u64) -> BudgetEntry {
    match before {
        Some(old_entries) => if old_entries.contains_key(dim) {
            BudgetEntry { limit, ..old_entries[dim] }
        } else {
            BudgetEntry { limit, reserved: 0, spent: 0 }
        },
        None => BudgetEntry { limit, reserved: 0, spent: 0 },
    }
}

/// The budgets that the first `n` limits set.
pub open spec fn budgeted(before: Option<GrantView>, limits: Seq<Amount>, n: nat) -> GrantView
    decreases n,
{
    if n == 0 || n > limits.len() {
        Map::empty()
    } else {
        let (dim, limit) = limits[n - 1];
        budgeted(before, limits, (n - 1) as nat).insert(dim, limited(before, dim, limit))
    }
}

/// A grant and its limits, if it has a budget.
pub type GrantLimits = (Seq<char>, Option<Seq<Amount>>);

pub open spec fn limits_view(s: Seq<(String, Option<BudgetMap>)>) -> Seq<GrantLimits> {
    Seq::new(
        s.len(),
        |i: int|
            (
                s[i].0@,
                match s[i].1 {
                    Some(b) => Some(b@),
                    None => None,
                },
            ),
    )
}

pub open spec fn limits_of(x: GrantLimits) -> Seq<Amount> {
    match x.1 {
        Some(s) => s,
        None => Seq::empty(),
    }
}

/// The ledger that the first `n` grants set.
pub open spec fn granted(
    before: Map<Seq<char>, GrantView>,
    grants: Seq<GrantLimits>,
    n: nat,
) -> Map<Seq<char>, GrantView>
    decreases n,
{
    if n == 0 || n > grants.len() {
        Map::empty()
    } else {
        let x = grants[n - 1];
        let was = if before.contains_key(x.0) {
            Some(before[x.0])
        } else {
            None
        };
        granted(before, grants, (n - 1) as nat).insert(
            x.0,
            budgeted(was, limits_of(x), limits_of(x).len()),
        )
    }
}

proof fn lemma_grants_insert(
    m: Map<Seq<char>, NameMap<BudgetEntry>>,
    name: Seq<char>,
    v: NameMap<BudgetEntry>,
)
    ensures
        grants_view(m.insert(name, v)) == grants_view(m).insert(name, v.map()),
{
    assert(grants_view(m.insert(name, v)) =~= grants_view(m).insert(name, v.map()));
}

impl BudgetLedger {
    /// A ledger without grants.
    pub fn empty() -> (r: Self)
        ensures
            r@ == Map::<Seq<char>, GrantView>::empty(),
    {
        let r = BudgetLedger { grants: NameMap::new() };
        assert(r@ =~= Map::<Seq<char>, GrantView>::empty());
        r
    }

    pub fn from_grants(grants: Vec<(String, Option<BudgetMap>)>) -> (r: Self)
        ensures
            r@ == granted(Map::empty(), limits_view(grants@), grants@.len()),
    {
        let mut ledger = BudgetLedger::empty();
        ledger.update_from_grants(grants);
        ledger
    }

    fn budget(&self, name: &str, limits: &Option<BudgetMap>) -> (r: NameMap<BudgetEntry>)
        ensures
            r.map() == budgeted(
                if self@.contains_key(name@) {
                    Some(self@[name@])
                } else {
                    None
                },
                match *limits {
                    Some(b) => b@,
                    None => Seq::empty(),
                },
                match *limits {
                    Some(b) => b@.len(),
                    None => 0,
                },
            ),
    {
        let mut out: NameMap<BudgetEntry> = NameMap::new();
        let before = self.grants.get(name);
        let ghost was = if self@.contains_key(name@) {
            Some(self@[name@])
        } else {
            None
        };
        if let Some(b) = limits {
            let mut i: usize = 0;
            while i < b.len()
                invariant
                    i <= b@.len(),
                    match (before, was) {
                        (Some(x), Some(y)) => x.map() == y,
                        (None, None) => true,
                        _ => false,
                    },
                    out.map() == budgeted(was, b@, i as nat),
                decreases b@.len() - i,
            {
                let (dim, limit) = b.entry(i);
                let entry = match before {
                    Some(m) => match m.get(dim.as_str()) {
                        Some(e) => BudgetEntry { limit, reserved: e.reserved, spent: e.spent },
                        None => BudgetEntry { limit, reserved: 0, spent: 0 },
                    },
                    None => BudgetEntry { limit, reserved: 0, spent: 0 },
                };
                out.insert(dim.clone(), entry);
                i += 1;
            }
        }
        out
    }

    /// Takes over a new set of grants. What a grant has reserved and spent in a dimension it keeps.
    pub fn update_from_grants(&mut self, grants: Vec<(String, Option<BudgetMap>)>)
        ensures
            final(self)@ == granted(old(self)@, limits_view(grants@), grants@.len()),
    {
        let ghost all = limits_view(grants@);
        let ghost before = self@;
        let mut next: NameMap<NameMap<BudgetEntry>> = NameMap::new();
        let mut i: usize = 0;
        assert(grants_view(next.map()) =~= granted(before, all, 0));
        while i < grants.len()
            invariant
                i <= grants@.len(),
                all == limits_view(grants@),
                before == self@,
                grants_view(next.map()) == granted(before, all, i as nat),
            decreases grants@.len() - i,
        {
            let entries = self.budget(grants[i].0.as_str(), &grants[i].1);
            let ghost was = next.map();
            next.insert(grants[i].0.clone(), entries);
            proof {
                lemma_grants_insert(was, grants@[i as int].0@, entries);
                assert(all[i as int].0 == grants@[i as int].0@);
            }
            i += 1;
        }
        self.grants = next;
    }

    /// Whether the budget of a grant allows a reservation. A grant that the ledger does not know
    /// has no limits.
    pub fn check_reserve(&self, grant: &str, reserve: &BudgetMap) -> (r: Result<(), BudgetError>)
        ensures
            match r {
                Ok(_) => !self@.contains_key(grant@) || over_reserved(
                    grant@,
                    self@[grant@],
                    reserve@,
                    reserve@.len(),
                ) is None,
                Err(e) => self@.contains_key(grant@) && over_reserved(
                    grant@,
                    self@[grant@],
                    reserve@,
                    reserve@.len(),
                ) == Some(e.text()),
            },
    {
        let entries = match self.grants.get(grant) {
            Some(e) => e,
            None => {
                return Ok(());
            },
        };
        let ghost m = entries.map();
        let mut i: usize = 0;
        while i < reserve.len()
            invariant
                i <= reserve@.len(),
                m == entries.map(),
                self@.contains_key(grant@),
                self@[grant@] == m,
                over_reserved(grant@, m, reserve@, i as nat) is None,
            decreases reserve@.len() - i,
        {
            let (dim, amount) = reserve.entry(i);
            if let Some(entry) = entries.get(dim.as_str()) {
                let total: u64 = entry.spent.saturating_add(entry.reserved).saturating_add(amount);
                assert(total == reserve_total(*entry, amount));
                if total > entry.limit {
                    proof {
                        lemma_over_stands(grant@, m, reserve@, (i + 1) as nat, reserve@.len());
                    }
                    return Err(exceeded(grant, dim.as_str(), total, entry.limit));
                }
            }
            i += 1;
        }
        Ok(())
    }

    /// Reserves amounts where the budget of the grant allows it.
    pub fn apply_reserve(&mut self, grant: &str, reserve: &BudgetMap) -> (r: Result<
        (),
        BudgetError,
    >)
        ensures
            match r {
                Ok(_) => if old(self)@.contains_key(grant@) {
                    over_reserved(grant@, old(self)@[grant@], reserve@, reserve@.len()) is None
                        && final(self)@ == old(self)@.insert(
                        grant@,
                        reserved(old(self)@[grant@], reserve@, reserve@.len()),
                    )
                } else {
                    final(self)@ == old(self)@
                },
                Err(e) => old(self)@.contains_key(grant@) && over_reserved(
                    grant@,
                    old(self)@[grant@],
                    reserve@,
                    reserve@.len(),
                ) == Some(e.text()) && final(self)@ == old(self)@,
            },
    {
        match self.check_reserve(grant, reserve) {
            Ok(_) => {},
            Err(e) => {
                return Err(e);
            },
        }
        let ghost before = self.grants.map();
        match self.grants.remove(grant) {
            None => {
                assert(self@ =~= grants_view(before));
            },
            Some(mut entries) => {
                let ghost m = entries.map();
                let mut i: usize = 0;
                while i < reserve.len()
                    invariant
                        i <= reserve@.len(),
                        entries.map() == reserved(m, reserve@, i as nat),
                    decreases reserve@.len() - i,
                {
                    let (dim, amount) = reserve.entry(i);
                    let found = match entries.get(dim.as_str()) {
                        Some(e) => Some(*e),
                        None => None,
                    };
                    if let Some(e) = found {
                        let next = BudgetEntry {
                            limit: e.limit,
                            reserved: e.reserved.saturating_add(amount),
                            spent: e.spent,
                        };
                        assert(next.reserved == capped(e.reserved, amount));
                        entries.insert(dim.clone(), next);
                    }
                    i += 1;
                }
                self.grants.insert(grant.to_owned(), entries);
                proof {
                    lemma_grants_insert(before, grant@, entries);
                    assert(before.remove(grant@).insert(grant@, entries) =~= before.insert(
                        grant@,
                        entries,
                    ));
                }
            },
        }
        Ok(())
    }

    /// Gives a reservation back and counts what was used. Where that fails, what was settled
    /// before the fault stays settled.
    pub fn apply_settle(&mut self, grant: &str, reserve: &BudgetMap, usage: &BudgetMap) -> (r: Result<
        (),
        BudgetError,
    >)
        ensures
            if old(self)@.contains_key(grant@) {
                let (after, fault) = settled(grant@, old(self)@[grant@], reserve@, usage@);
                final(self)@ == old(self)@.insert(grant@, after) && match (r, fault) {
                    (Ok(_), None) => true,
                    (Err(e), Some(m)) => e.text() == m,
                    _ => false,
                }
            } else {
                r is Ok && final(self)@ == old(self)@
            },
    {
        let ghost before = self.grants.map();
        match self.grants.remove(grant) {
            None => {
                assert(self@ =~= grants_view(before));
                Ok(())
            },
            Some(mut entries) => {
                let r = settle_entries(grant, &mut entries, reserve, usage);
                self.grants.insert(grant.to_owned(), entries);
                proof {
                    lemma_grants_insert(before, grant@, entries);
                    assert(before.remove(grant@).insert(grant@, entries) =~= before.insert(
                        grant@,
                        entries,
                    ));
                }
                r
            },
        }
    }
}

fn settle_entries(
    grant: &str,
    entries: &mut NameMap<BudgetEntry>,
    reserve: &BudgetMap,
    usage: &BudgetMap,
) -> (r: Result<(), BudgetError>)
    ensures
        ({
            let (after, fault) = settled(grant@, old(entries).map(), reserve@, usage@);
            final(entries).map() == after && match (r, fault) {
                (Ok(_), None) => true,
                (Err(e), Some(m)) => e.text() == m,
                _ => false,
            }
        }),
{
    let ghost m = entries.map();
    let mut i: usize = 0;
    while i < reserve.len()
        invariant
            i <= reserve@.len(),
            m == old(entries).map(),
            released(grant@, m, reserve@, i as nat) == (entries.map(), None::<Seq<char>>),
        decreases reserve@.len() - i,
    {
        let (dim, amount) = reserve.entry(i);
        let found = match entries.get(dim.as_str()) {
            Some(e) => Some(*e),
            None => None,
        };
        if let Some(e) = found {
            if e.reserved < amount {
                proof {
                    lemma_released_stands(grant@, m, reserve@, (i + 1) as nat, reserve@.len());
                }
                return Err(at_place("reservation underflow for ", grant, dim.as_str()));
            }
            let next = BudgetEntry {
                limit: e.limit,
                reserved: e.reserved - amount,
                spent: e.spent,
            };
            entries.insert(dim.clone(), next);
        }
        i += 1;
    }
    let ghost free = entries.map();
    let mut j: usize = 0;
    while j < usage.len()
        invariant
            j <= usage@.len(),
            m == old(entries).map(),
            released(grant@, m, reserve@, reserve@.len()) == (free, None::<Seq<char>>),
            spent(grant@, free, reserve@, usage@, j as nat) == (
                entries.map(),
                None::<Seq<char>>,
            ),
        decreases usage@.len() - j,
    {
        let (dim, amount) = usage.entry(j);
        let found = match entries.get(dim.as_str()) {
            Some(e) => Some(*e),
            None => None,
        };
        if let Some(e) = found {
            if let Some(held) = reserve.get(dim.as_str()) {
                if amount > held {
                    proof {
                        lemma_spent_stands(
                            grant@,
                            free,
                            reserve@,
                            usage@,
                            (j + 1) as nat,
                            usage@.len(),
                        );
                    }
                    return Err(at_place("usage exceeds reservation for ", grant, dim.as_str()));
                }
            }
            let total: u64 = e.spent.saturating_add(amount);
            assert(total == capped(e.spent, amount));
            if total > e.limit {
                proof {
                    lemma_spent_stands(
                        grant@,
                        free,
                        reserve@,
                        usage@,
                        (j + 1) as nat,
                        usage@.len(),
                    );
                }
                return Err(exceeded(grant, dim.as_str(), total, e.limit));
            }
            let next = BudgetEntry { limit: e.limit, reserved: e.reserved, spent: total };
            entries.insert(dim.clone(), next);
        }
        j += 1;
    }
    Ok(())
}

/// What a reservation makes of a budget.
pub open spec fn with_reserved(e: BudgetEntry, amount: Option<u64>) -> BudgetEntry {
    match amount {
        Some(a) => BudgetEntry { reserved: capped(e.reserved, a), ..e },
        None => e,
    }
}

/// Whether `after` is the budget with a reservation given back.
pub open spec fn is_freed(e: BudgetEntry, amount: Option<u64>, after: BudgetEntry) -> bool {
    match amount {
        Some(a) => a <= e.reserved && after == (BudgetEntry {
            reserved: (e.reserved - a) as u64,
            ..e
        }),
        None => after == e,
    }
}

/// The amount of a dimension among the first `n`.
pub open spec fn among(s: Seq<Amount>, dim: Seq<char>, n: nat) -> Option<u64> {
    if dim_index(s, dim) < n {
        amount_of(s, dim)
    } else {
        None
    }
}

/// A dimension occurs once.
proof fn lemma_once(s: Seq<Amount>, i: int)
    requires
        by_dimension(s),
        0 <= i < s.len(),
    ensures
        dim_index(s, s[i].0) == i,
{
    assert forall|k: int| 0 <= k < i implies (#[trigger] s[k]).0 != s[i].0 by {
        lemma_lex_irreflexive(s[i].0);
    }
    lemma_dim_index_is(s, s[i].0, i);
}

proof fn lemma_reserved_at(entries: GrantView, reserve: Seq<Amount>, n: nat)
    requires
        by_dimension(reserve),
        n <= reserve.len(),
    ensures
        reserved(entries, reserve, n).dom() == entries.dom(),
        forall|d: Seq<char>|
            entries.contains_key(d) ==> #[trigger] reserved(entries, reserve, n)[d]
                == with_reserved(entries[d], among(reserve, d, n)),
    decreases n,
{
    if n > 0 {
        lemma_reserved_at(entries, reserve, (n - 1) as nat);
        lemma_once(reserve, n - 1);
        assert(reserved(entries, reserve, n).dom() =~= entries.dom());
        assert forall|d: Seq<char>| entries.contains_key(d) implies #[trigger] reserved(
            entries,
            reserve,
            n,
        )[d] == with_reserved(entries[d], among(reserve, d, n)) by {
            lemma_dim_index(reserve, d);
        }
    } else {
        assert forall|d: Seq<char>| entries.contains_key(d) implies #[trigger] reserved(
            entries,
            reserve,
            n,
        )[d] == with_reserved(entries[d], among(reserve, d, n)) by {
            lemma_dim_index(reserve, d);
        }
    }
}

proof fn lemma_not_over(grant: Seq<char>, entries: GrantView, reserve: Seq<Amount>, n: nat)
    requires
        n <= reserve.len(),
        over_reserved(grant, entries, reserve, n) is None,
    ensures
        forall|i: int|
            0 <= i < n && entries.contains_key((#[trigger] reserve[i]).0) ==> reserve_total(
                entries[reserve[i].0],
                reserve[i].1,
            ) <= entries[reserve[i].0].limit,
    decreases n,
{
    if n > 0 {
        lemma_not_over(grant, entries, reserve, (n - 1) as nat);
    }
}

proof fn lemma_released_at(grant: Seq<char>, entries: GrantView, reserve: Seq<Amount>, n: nat)
    requires
        by_dimension(reserve),
        n <= reserve.len(),
    ensures
        released(grant, entries, reserve, n).1 is None ==> {
            let after = released(grant, entries, reserve, n).0;
            &&& after.dom() == entries.dom()
            &&& forall|d: Seq<char>|
                entries.contains_key(d) ==> is_freed(
                    entries[d],
                    among(reserve, d, n),
                    #[trigger] after[d],
                )
        },
        (forall|i: int|
            0 <= i < n && entries.contains_key((#[trigger] reserve[i]).0) ==> reserve[i].1
                <= entries[reserve[i].0].reserved) ==> released(grant, entries, reserve, n).1 is None,
    decreases n,
{
    if n > 0 {
        lemma_released_at(grant, entries, reserve, (n - 1) as nat);
        lemma_once(reserve, n - 1);
        let (done, fault) = released(grant, entries, reserve, (n - 1) as nat);
        let (dim, amount) = reserve[n - 1];
        if released(grant, entries, reserve, n).1 is None {
            let after = released(grant, entries, reserve, n).0;
            assert(after.dom() =~= entries.dom());
            assert forall|d: Seq<char>| entries.contains_key(d) implies is_freed(
                entries[d],
                among(reserve, d, n),
                #[trigger] after[d],
            ) by {
                lemma_dim_index(reserve, d);
                assert(done.contains_key(d));
                let x = done[d];
            }
        }
        if forall|i: int|
            0 <= i < n && entries.contains_key((#[trigger] reserve[i]).0) ==> reserve[i].1
                <= entries[reserve[i].0].reserved {
            assert(fault is None);
            if done.contains_key(dim) {
                let x = done[dim];
                assert(entries.contains_key(reserve[n - 1].0));
            }
        }
    } else {
        assert forall|d: Seq<char>| entries.contains_key(d) implies among(
            reserve,
            d,
            n,
        ) is None by {
            lemma_dim_index(reserve, d);
        }
    }
}

/// Whether no budget is overdrawn: what is spent and what is reserved stay within the limit. Sums
/// stop growing at the greatest number, so a budget with that limit never is.
pub open spec fn within(entries: GrantView) -> bool {
    forall|d: Seq<char>|
        #[trigger] entries.contains_key(d) ==> capped(entries[d].spent, entries[d].reserved)
            <= entries[d].limit
}

/// A reservation that is allowed overdraws no budget.
pub proof fn lemma_reserve_keeps_budget(
    grant: Seq<char>,
    entries: GrantView,
    reserve: Seq<Amount>,
)
    requires
        by_dimension(reserve),
        within(entries),
        over_reserved(grant, entries, reserve, reserve.len()) is None,
    ensures
        within(reserved(entries, reserve, reserve.len())),
{
    let n = reserve.len();
    let after = reserved(entries, reserve, n);
    lemma_reserved_at(entries, reserve, n);
    lemma_not_over(grant, entries, reserve, n);
    assert forall|d: Seq<char>| #[trigger] after.contains_key(d) implies capped(
        after[d].spent,
        after[d].reserved,
    ) <= after[d].limit by {
        assert(entries.contains_key(d));
        lemma_dim_index(reserve, d);
        let i = dim_index(reserve, d);
        if i < n {
            assert(reserve[i].0 == d);
        }
    }
}

/// What is given back overdraws nothing, however far it comes.
proof fn lemma_release_keeps_budget(
    grant: Seq<char>,
    entries: GrantView,
    reserve: Seq<Amount>,
    n: nat,
)
    requires
        within(entries),
    ensures
        within(released(grant, entries, reserve, n).0),
    decreases n,
{
    if n > 0 && n <= reserve.len() {
        lemma_release_keeps_budget(grant, entries, reserve, (n - 1) as nat);
        let done = released(grant, entries, reserve, (n - 1) as nat).0;
        let after = released(grant, entries, reserve, n).0;
        assert forall|d: Seq<char>| #[trigger] after.contains_key(d) implies capped(
            after[d].spent,
            after[d].reserved,
        ) <= after[d].limit by {
            assert(done.contains_key(d));
        }
    }
}

/// Whether there is room to spend what was reserved, besides what is still reserved.
spec fn has_room(entries: GrantView, reserve: Seq<Amount>) -> bool {
    forall|d: Seq<char>| #[trigger]
        entries.contains_key(d) ==> {
            let held = match amount_of(reserve, d) {
                Some(a) => a,
                None => 0,
            };
            capped(capped(entries[d].spent, held), entries[d].reserved) <= entries[d].limit
        }
}

/// What is spent of what was reserved overdraws nothing, however far it comes.
proof fn lemma_spend_keeps_budget(
    grant: Seq<char>,
    entries: GrantView,
    reserve: Seq<Amount>,
    usage: Seq<Amount>,
    n: nat,
)
    requires
        by_dimension(usage),
        n <= usage.len(),
        has_room(entries, reserve),
        forall|i: int|
            0 <= i < usage.len() && entries.contains_key((#[trigger] usage[i]).0) ==> amount_of(
                reserve,
                usage[i].0,
            ) is Some,
    ensures
        ({
            let after = spent(grant, entries, reserve, usage, n).0;
            &&& after.dom() == entries.dom()
            &&& within(after)
            &&& forall|d: Seq<char>| #[trigger]
                after.contains_key(d) && among(usage, d, n) is None ==> after[d] == entries[d]
        }),
    decreases n,
{
    let after = spent(grant, entries, reserve, usage, n).0;
    if n > 0 {
        lemma_spend_keeps_budget(grant, entries, reserve, usage, (n - 1) as nat);
        lemma_once(usage, n - 1);
        let done = spent(grant, entries, reserve, usage, (n - 1) as nat).0;
        assert(after.dom() =~= entries.dom());
        assert forall|d: Seq<char>| #[trigger] after.contains_key(d) implies capped(
            after[d].spent,
            after[d].reserved,
        ) <= after[d].limit && (among(usage, d, n) is None ==> after[d] == entries[d]) by {
            lemma_dim_index(usage, d);
            assert(done.contains_key(d));
            assert(entries.contains_key(d));
            if usage[n - 1].0 == d {
                assert(among(usage, d, (n - 1) as nat) is None);
                assert(done[d] == entries[d]);
            }
        }
    } else {
        assert forall|d: Seq<char>| #[trigger] after.contains_key(d) implies capped(
            after[d].spent,
            after[d].reserved,
        ) <= after[d].limit by {
            assert(entries.contains_key(d));
        }
    }
}

/// Settling a reservation overdraws no budget, whether or not it can be settled in full, where of
/// the budgets that there are only what was reserved is used.
pub proof fn lemma_settle_keeps_budget(
    grant: Seq<char>,
    entries: GrantView,
    reserve: Seq<Amount>,
    usage: Seq<Amount>,
)
    requires
        by_dimension(reserve),
        by_dimension(usage),
        within(entries),
        forall|i: int|
            0 <= i < usage.len() && entries.contains_key((#[trigger] usage[i]).0) ==> amount_of(
                reserve,
                usage[i].0,
            ) is Some,
    ensures
        within(settled(grant, entries, reserve, usage).0),
{
    let n = reserve.len();
    let (free, fault) = released(grant, entries, reserve, n);
    lemma_release_keeps_budget(grant, entries, reserve, n);
    if fault is None {
        lemma_released_at(grant, entries, reserve, n);
        assert forall|d: Seq<char>| #[trigger] free.contains_key(d) implies {
            let held = match amount_of(reserve, d) {
                Some(a) => a,
                None => 0,
            };
            capped(capped(free[d].spent, held), free[d].reserved) <= free[d].limit
        } by {
            assert(entries.contains_key(d));
            lemma_dim_index(reserve, d);
            let x = free[d];
        }
        assert forall|i: int|
            0 <= i < usage.len() && free.contains_key((#[trigger] usage[i]).0) implies amount_of(
            reserve,
            usage[i].0,
        ) is Some by {
            assert(entries.contains_key(usage[i].0));
        }
        lemma_spend_keeps_budget(grant, free, reserve, usage, usage.len());
    }
}

/// A reservation of which nothing is used leaves no trace, unless what is reserved goes past the
/// greatest number, where sums stop growing.
pub proof fn lemma_unused_reservation_is_undone(
    grant: Seq<char>,
    entries: GrantView,
    reserve: Seq<Amount>,
)
    requires
        by_dimension(reserve),
        forall|i: int|
            0 <= i < reserve.len() && entries.contains_key((#[trigger] reserve[i]).0)
                ==> entries[reserve[i].0].reserved + reserve[i].1 <= u64::MAX,
    ensures
        settled(grant, reserved(entries, reserve, reserve.len()), reserve, Seq::empty()) == (
            entries,
            None::<Seq<char>>,
        ),
{
    let n = reserve.len();
    let held = reserved(entries, reserve, n);
    lemma_reserved_at(entries, reserve, n);
    assert forall|i: int| 0 <= i < n && held.contains_key((#[trigger] reserve[i]).0) implies {
        let d = reserve[i].0;
        held[d].reserved == entries[d].reserved + reserve[i].1
    } by {
        let d = reserve[i].0;
        lemma_once(reserve, i);
        assert(entries.contains_key(d));
        let x = held[d];
    }
    lemma_released_at(grant, held, reserve, n);
    let back = released(grant, held, reserve, n).0;
    assert(back =~= entries) by {
        assert(back.dom() == entries.dom());
        assert forall|d: Seq<char>| entries.contains_key(d) implies back[d] == entries[d] by {
            lemma_dim_index(reserve, d);
            assert(held.contains_key(d));
            let i = dim_index(reserve, d);
            let x = held[d];
            if i < n {
                assert(reserve[i].0 == d);
            }
        }
    }
}

/// A reservation that is allowed under limits below the greatest number leaves no trace when nothing
/// of it is used.
pub proof fn lemma_allowed_reservation_is_undone(
    grant: Seq<char>,
    entries: GrantView,
    reserve: Seq<Amount>,
)
    requires
        by_dimension(reserve),
        over_reserved(grant, entries, reserve, reserve.len()) is None,
        forall|i: int|
            0 <= i < reserve.len() && entries.contains_key((#[trigger] reserve[i]).0)
                ==> entries[reserve[i].0].limit < u64::MAX,
    ensures
        settled(grant, reserved(entries, reserve, reserve.len()), reserve, Seq::empty()) == (
            entries,
            None::<Seq<char>>,
        ),
{
    lemma_not_over(grant, entries, reserve, reserve.len());
    lemma_unused_reservation_is_undone(grant, entries, reserve);
}

/// What is spent is added to what was spent before: with the first `n` amounts spent, each of them
/// is counted once on its own dimension, and the rest of the budgets is as it was.
proof fn lemma_spent_at(
    grant: Seq<char>,
    entries: GrantView,
    reserve: Seq<Amount>,
    usage: Seq<Amount>,
    n: nat,
)
    requires
        by_dimension(usage),
        n <= usage.len(),
    ensures
        ({
            let (after, fault) = spent(grant, entries, reserve, usage, n);
            &&& after.dom() == entries.dom()
            &&& forall|d: Seq<char>| #[trigger]
                entries.contains_key(d) ==> after[d].limit == entries[d].limit && after[d].reserved
                    == entries[d].reserved && after[d].spent >= entries[d].spent
            &&& forall|d: Seq<char>|
                entries.contains_key(d) && (forall|i: int|
                    0 <= i < n ==> (#[trigger] usage[i]).0 != d) ==> #[trigger] after[d]
                    == entries[d]
            &&& fault is None ==> forall|i: int|
                0 <= i < n && entries.contains_key((#[trigger] usage[i]).0)
                    ==> after[usage[i].0].spent == if entries[usage[i].0].spent + usage[i].1
                    > u64::MAX {
                    u64::MAX as int
                } else {
                    entries[usage[i].0].spent + usage[i].1
                }
            &&& fault is None <==> forall|i: int|
                0 <= i < n && entries.contains_key((#[trigger] usage[i]).0) ==> {
                    &&& amount_of(reserve, usage[i].0) matches Some(held) ==> usage[i].1 <= held
                    &&& entries[usage[i].0].spent + usage[i].1 <= entries[usage[i].0].limit
                        || entries[usage[i].0].limit == u64::MAX
                }
        }),
    decreases n,
{
    if n > 0 {
        lemma_spent_at(grant, entries, reserve, usage, (n - 1) as nat);
        let (done, was) = spent(grant, entries, reserve, usage, (n - 1) as nat);
        let (after, fault) = spent(grant, entries, reserve, usage, n);
        let dim = usage[n - 1].0;
        assert(after.dom() =~= entries.dom());
        assert forall|i: int| 0 <= i < n - 1 implies (#[trigger] usage[i]).0 != dim by {
            lemma_lex_irreflexive(dim);
        }
        if entries.contains_key(dim) {
            let x = done[dim];
            assert(done[dim] == entries[dim]);
        }
        assert forall|d: Seq<char>|
            entries.contains_key(d) && (forall|i: int|
                0 <= i < n ==> (#[trigger] usage[i]).0 != d) implies #[trigger] after[d]
            == entries[d] by {
            let x = done[d];
            assert(usage[n - 1].0 != d);
        }
        assert forall|d: Seq<char>| #[trigger] entries.contains_key(d) implies after[d].limit
            == entries[d].limit && after[d].reserved == entries[d].reserved && after[d].spent
            >= entries[d].spent by {
            let x = done[d];
        }
        if fault is None {
            assert forall|i: int|
                0 <= i < n && entries.contains_key(
                    (#[trigger] usage[i]).0,
                ) implies after[usage[i].0].spent == (if entries[usage[i].0].spent + usage[i].1
                > u64::MAX {
                u64::MAX as int
            } else {
                entries[usage[i].0].spent + usage[i].1
            }) by {
                if i < n - 1 {
                    let x = done[usage[i].0];
                }
            }
        }
    }
}

/// A settlement without a fault adds what was used to what was spent, dimension by dimension and up
/// to the greatest number, and takes what was reserved off what is reserved. No limit changes, and
/// a dimension that is not spoken of stays as it was.
pub proof fn lemma_settlement_adds_up(
    grant: Seq<char>,
    entries: GrantView,
    reserve: Seq<Amount>,
    usage: Seq<Amount>,
)
    requires
        by_dimension(reserve),
        by_dimension(usage),
        settled(grant, entries, reserve, usage).1 is None,
    ensures
        ({
            let after = settled(grant, entries, reserve, usage).0;
            &&& after.dom() == entries.dom()
            &&& forall|d: Seq<char>| #[trigger]
                entries.contains_key(d) ==> after[d].limit == entries[d].limit && after[d].spent
                    >= entries[d].spent
            &&& forall|i: int|
                0 <= i < usage.len() && entries.contains_key((#[trigger] usage[i]).0)
                    ==> after[usage[i].0].spent == if entries[usage[i].0].spent + usage[i].1
                    > u64::MAX {
                    u64::MAX as int
                } else {
                    entries[usage[i].0].spent + usage[i].1
                }
            &&& forall|d: Seq<char>| #[trigger]
                entries.contains_key(d) && (forall|i: int|
                    0 <= i < usage.len() ==> (#[trigger] usage[i]).0 != d) ==> after[d].spent
                    == entries[d].spent
            &&& forall|i: int|
                0 <= i < reserve.len() && entries.contains_key((#[trigger] reserve[i]).0)
                    ==> after[reserve[i].0].reserved == entries[reserve[i].0].reserved
                    - reserve[i].1
            &&& forall|d: Seq<char>| #[trigger]
                entries.contains_key(d) && (forall|i: int|
                    0 <= i < reserve.len() ==> (#[trigger] reserve[i]).0 != d) ==> after[d].reserved
                    == entries[d].reserved
        }),
{
    let n = reserve.len();
    let free = released(grant, entries, reserve, n).0;
    lemma_released_at(grant, entries, reserve, n);
    lemma_spent_at(grant, free, reserve, usage, usage.len());
    let after = settled(grant, entries, reserve, usage).0;
    assert forall|d: Seq<char>| #[trigger] entries.contains_key(d) implies free.contains_key(d)
        && is_freed(entries[d], among(reserve, d, n), free[d]) by {
        let x = free[d];
    }
    assert forall|i: int|
        0 <= i < usage.len() && entries.contains_key(
            (#[trigger] usage[i]).0,
        ) implies free.contains_key(usage[i].0) && free[usage[i].0].spent
        == entries[usage[i].0].spent by {}
    assert forall|i: int|
        0 <= i < reserve.len() && entries.contains_key(
            (#[trigger] reserve[i]).0,
        ) implies after[reserve[i].0].reserved == entries[reserve[i].0].reserved - reserve[i].1 by {
        lemma_once(reserve, i);
        assert(free.contains_key(reserve[i].0));
    }
    assert forall|d: Seq<char>| #[trigger]
        entries.contains_key(d) && (forall|i: int|
            0 <= i < reserve.len() ==> (#[trigger] reserve[i]).0 != d) implies after[d].reserved
        == entries[d].reserved by {
        lemma_dim_index(reserve, d);
        assert(free.contains_key(d));
    }
    assert forall|d: Seq<char>| #[trigger]
        entries.contains_key(d) && (forall|i: int|
            0 <= i < usage.len() ==> (#[trigger] usage[i]).0 != d) implies after[d].spent
        == entries[d].spent by {
        assert(free.contains_key(d));
        let x = after[d];
    }
}

/// A settlement goes through if and only if each dimension has reserved at least what is given
/// back, of no dimension more is used than was reserved of it, and what was spent together with
/// what is used stays within the limit, or the limit is the greatest number. Dimensions without a
/// budget do not matter.
pub proof fn lemma_settlement_goes_through(
    grant: Seq<char>,
    entries: GrantView,
    reserve: Seq<Amount>,
    usage: Seq<Amount>,
)
    requires
        by_dimension(reserve),
        by_dimension(usage),
    ensures
        settled(grant, entries, reserve, usage).1 is None <==> {
            &&& forall|i: int|
                0 <= i < reserve.len() && entries.contains_key((#[trigger] reserve[i]).0)
                    ==> reserve[i].1 <= entries[reserve[i].0].reserved
            &&& forall|i: int, j: int|
                0 <= i < usage.len() && 0 <= j < reserve.len() && entries.contains_key(
                    (#[trigger] usage[i]).0,
                ) && (#[trigger] reserve[j]).0 == usage[i].0 ==> usage[i].1 <= reserve[j].1
            &&& forall|i: int|
                0 <= i < usage.len() && entries.contains_key((#[trigger] usage[i]).0)
                    ==> entries[usage[i].0].spent + usage[i].1 <= entries[usage[i].0].limit
                    || entries[usage[i].0].limit == u64::MAX
        },
{
    let n = reserve.len();
    let (free, fault) = released(grant, entries, reserve, n);
    lemma_released_at(grant, entries, reserve, n);
    if fault is None {
        lemma_spent_at(grant, free, reserve, usage, usage.len());
        assert forall|d: Seq<char>| #[trigger] entries.contains_key(d) implies free.contains_key(d)
            && is_freed(entries[d], among(reserve, d, n), free[d]) by {
            let x = free[d];
        }
        assert forall|i: int|
            0 <= i < n && entries.contains_key((#[trigger] reserve[i]).0) implies reserve[i].1
            <= entries[reserve[i].0].reserved by {
            lemma_once(reserve, i);
        }
        assert forall|i: int| 0 <= i < usage.len() implies free.contains_key(
            (#[trigger] usage[i]).0,
        ) == entries.contains_key(usage[i].0) && (entries.contains_key(usage[i].0) ==> (
        free[usage[i].0].spent == entries[usage[i].0].spent && free[usage[i].0].limit
            == entries[usage[i].0].limit)) by {}
        assert forall|j: int| 0 <= j < reserve.len() implies amount_of(
            reserve,
            (#[trigger] reserve[j]).0,
        ) == Some(reserve[j].1) by {
            lemma_once(reserve, j);
        }
        assert forall|d: Seq<char>| #[trigger] amount_of(reserve, d) is Some implies exists|j: int|
            0 <= j < reserve.len() && (#[trigger] reserve[j]).0 == d by {
            lemma_dim_index(reserve, d);
        }
        if settled(grant, entries, reserve, usage).1 is Some {
            let i = choose|i: int|
                0 <= i < usage.len() && free.contains_key((#[trigger] usage[i]).0) && !({
                    &&& amount_of(reserve, usage[i].0) matches Some(held) ==> usage[i].1 <= held
                    &&& free[usage[i].0].spent + usage[i].1 <= free[usage[i].0].limit
                        || free[usage[i].0].limit == u64::MAX
                });
            if amount_of(reserve, usage[i].0) is Some {
                let j = choose|j: int|
                    0 <= j < reserve.len() && (#[trigger] reserve[j]).0 == usage[i].0;
                assert(amount_of(reserve, reserve[j].0) == Some(reserve[j].1));
            }
        } else {
            assert forall|i: int, j: int|
                0 <= i < usage.len() && 0 <= j < reserve.len() && entries.contains_key(
                    (#[trigger] usage[i]).0,
                ) && (#[trigger] reserve[j]).0 == usage[i].0 implies usage[i].1 <= reserve[j].1 by {
                assert(amount_of(reserve, reserve[j].0) == Some(reserve[j].1));
            }
        }
    }
}

proof fn lemma_over_at(grant: Seq<char>, entries: GrantView, reserve: Seq<Amount>, n: nat)
    requires
        n <= reserve.len(),
    ensures
        over_reserved(grant, entries, reserve, n) is None <==> forall|i: int|
            0 <= i < n && entries.contains_key((#[trigger] reserve[i]).0) ==> {
                let e = entries[reserve[i].0];
                e.spent + e.reserved + reserve[i].1 <= e.limit || e.limit == u64::MAX
            },
    decreases n,
{
    if n > 0 {
        lemma_over_at(grant, entries, reserve, (n - 1) as nat);
    }
}

/// A reservation is allowed if and only if in each dimension with a budget what was spent, what is
/// reserved and what is to be reserved stay together within the limit, or the limit is the greatest
/// number. It is then added to what is reserved, up to the greatest number, and nothing else
/// changes.
pub proof fn lemma_reservation_adds_up(
    grant: Seq<char>,
    entries: GrantView,
    reserve: Seq<Amount>,
)
    requires
        by_dimension(reserve),
    ensures
        over_reserved(grant, entries, reserve, reserve.len()) is None <==> forall|i: int|
            0 <= i < reserve.len() && entries.contains_key((#[trigger] reserve[i]).0) ==> {
                let e = entries[reserve[i].0];
                e.spent + e.reserved + reserve[i].1 <= e.limit || e.limit == u64::MAX
            },
        ({
            let after = reserved(entries, reserve, reserve.len());
            &&& after.dom() == entries.dom()
            &&& forall|d: Seq<char>| #[trigger]
                entries.contains_key(d) ==> after[d].limit == entries[d].limit && after[d].spent
                    == entries[d].spent
            &&& forall|i: int|
                0 <= i < reserve.len() && entries.contains_key((#[trigger] reserve[i]).0)
                    ==> after[reserve[i].0].reserved == if entries[reserve[i].0].reserved
                    + reserve[i].1 > u64::MAX {
                    u64::MAX as int
                } else {
                    entries[reserve[i].0].reserved + reserve[i].1
                }
            &&& forall|d: Seq<char>| #[trigger]
                entries.contains_key(d) && (forall|i: int|
                    0 <= i < reserve.len() ==> (#[trigger] reserve[i]).0 != d) ==> after[d].reserved
                    == entries[d].reserved
        }),
{
    lemma_over_at(grant, entries, reserve, reserve.len());
    lemma_reserved_at(entries, reserve, reserve.len());
    let after = reserved(entries, reserve, reserve.len());
    assert forall|d: Seq<char>| #[trigger] entries.contains_key(d) implies after[d]
        == with_reserved(entries[d], among(reserve, d, reserve.len())) by {
        let x = after[d];
    }
    assert forall|i: int|
        0 <= i < reserve.len() && entries.contains_key(
            (#[trigger] reserve[i]).0,
        ) implies after[reserve[i].0].reserved == (if entries[reserve[i].0].reserved + reserve[i].1
        > u64::MAX {
        u64::MAX as int
    } else {
        entries[reserve[i].0].reserved + reserve[i].1
    }) by {
        lemma_once(reserve, i);
    }
    assert forall|d: Seq<char>| #[trigger]
        entries.contains_key(d) && (forall|i: int|
            0 <= i < reserve.len() ==> (#[trigger] reserve[i]).0 != d) implies after[d].reserved
        == entries[d].reserved by {
        lemma_dim_index(reserve, d);
    }
}

proof fn lemma_budgeted_at(before: Option<GrantView>, limits: Seq<Amount>, n: nat)
    requires
        by_dimension(limits),
        n <= limits.len(),
    ensures
        ({
            let after = budgeted(before, limits, n);
            &&& forall|d: Seq<char>| #[trigger]
                after.contains_key(d) <==> exists|i: int|
                    0 <= i < n && (#[trigger] limits[i]).0 == d
            &&& forall|i: int|
                0 <= i < n ==> {
                    let e = after[(#[trigger] limits[i]).0];
                    &&& e.limit == limits[i].1
                    &&& if before is Some && before->0.contains_key(limits[i].0) {
                        e.reserved == before->0[limits[i].0].reserved && e.spent
                            == before->0[limits[i].0].spent
                    } else {
                        e.reserved == 0 && e.spent == 0
                    }
                }
        }),
    decreases n,
{
    if n > 0 {
        lemma_budgeted_at(before, limits, (n - 1) as nat);
        let done = budgeted(before, limits, (n - 1) as nat);
        let after = budgeted(before, limits, n);
        assert forall|d: Seq<char>| #[trigger] after.contains_key(d) implies exists|i: int|
            0 <= i < n && (#[trigger] limits[i]).0 == d by {
            if d == limits[n - 1].0 {
                assert(limits[n - 1].0 == d);
            } else {
                assert(done.contains_key(d));
            }
        }
        assert forall|d: Seq<char>|
            (exists|i: int|
                0 <= i < n && (#[trigger] limits[i]).0 == d) implies #[trigger] after.contains_key(
            d,
        ) by {
            if d != limits[n - 1].0 {
                assert(done.contains_key(d));
            }
        }
        assert forall|i: int| 0 <= i < n - 1 implies (#[trigger] limits[i]).0 != limits[n
            - 1].0 by {
            lemma_lex_irreflexive(limits[n - 1].0);
        }
    }
}

proof fn lemma_granted_at(
    before: Map<Seq<char>, GrantView>,
    grants: Seq<GrantLimits>,
    n: nat,
)
    requires
        n <= grants.len(),
    ensures
        forall|g: Seq<char>| #[trigger]
            granted(before, grants, n).contains_key(g) <==> exists|i: int|
                0 <= i < n && (#[trigger] grants[i]).0 == g,
        forall|k: int|
            0 <= k < n && (forall|j: int|
                k < j < n ==> (#[trigger] grants[j]).0 != grants[k].0) ==> granted(
                before,
                grants,
                n,
            )[(#[trigger] grants[k]).0] == budgeted(
                if before.contains_key(grants[k].0) {
                    Some(before[grants[k].0])
                } else {
                    None
                },
                limits_of(grants[k]),
                limits_of(grants[k]).len(),
            ),
    decreases n,
{
    if n > 0 {
        lemma_granted_at(before, grants, (n - 1) as nat);
        let done = granted(before, grants, (n - 1) as nat);
        let after = granted(before, grants, n);
        assert forall|g: Seq<char>| #[trigger] after.contains_key(g) <==> exists|i: int|
            0 <= i < n && (#[trigger] grants[i]).0 == g by {
            if g == grants[n - 1].0 {
                assert(grants[n - 1].0 == g);
            } else {
                assert(after.contains_key(g) == done.contains_key(g));
            }
        }
        assert forall|k: int|
            0 <= k < n && (forall|j: int|
                k < j < n ==> (#[trigger] grants[j]).0 != grants[k].0) implies after[(
        #[trigger] grants[k]).0] == budgeted(
            if before.contains_key(grants[k].0) {
                Some(before[grants[k].0])
            } else {
                None
            },
            limits_of(grants[k]),
            limits_of(grants[k]).len(),
        ) by {
            if k < n - 1 {
                assert(grants[n - 1].0 != grants[k].0);
                assert(done[grants[k].0] == after[grants[k].0]);
            }
        }
    }
}

/// New grants replace the old ones: the ledger knows the grants that are listed and no others, and
/// of each the dimensions that are limited and no others, under the new limits. What a grant had
/// reserved and spent in a dimension it keeps; a new dimension starts with nothing.
pub proof fn lemma_new_grants_keep_what_was_spent(
    before: Map<Seq<char>, GrantView>,
    grants: Seq<GrantLimits>,
    k: int,
    limits: Seq<Amount>,
)
    requires
        0 <= k < grants.len(),
        grants[k].1 == Some(limits),
        by_dimension(limits),
        forall|j: int| k < j < grants.len() ==> (#[trigger] grants[j]).0 != grants[k].0,
    ensures
        ({
            let after = granted(before, grants, grants.len());
            let name = grants[k].0;
            &&& forall|g: Seq<char>| #[trigger]
                after.contains_key(g) <==> exists|i: int|
                    0 <= i < grants.len() && (#[trigger] grants[i]).0 == g
            &&& forall|d: Seq<char>| #[trigger]
                after[name].contains_key(d) <==> exists|i: int|
                    0 <= i < limits.len() && (#[trigger] limits[i]).0 == d
            &&& forall|i: int|
                0 <= i < limits.len() ==> {
                    let d = (#[trigger] limits[i]).0;
                    &&& after[name][d].limit == limits[i].1
                    &&& if before.contains_key(name) && before[name].contains_key(d) {
                        after[name][d].reserved == before[name][d].reserved
                            && after[name][d].spent == before[name][d].spent
                    } else {
                        after[name][d].reserved == 0 && after[name][d].spent == 0
                    }
                }
        }),
{
    lemma_granted_at(before, grants, grants.len());
    let was = if before.contains_key(grants[k].0) {
        Some(before[grants[k].0])
    } else {
        None
    };
    lemma_budgeted_at(was, limits, limits.len());
    assert(granted(before, grants, grants.len())[grants[k].0] == budgeted(
        was,
        limits,
        limits.len(),
    ));
}

/// Setting an amount sets that of one dimension, and leaves the others.
pub proof fn lemma_amount_is_set(s: Seq<Amount>, dim: Seq<char>, amount: u64)
    requires
        by_dimension(s),
    ensures
        amount_set(s, dim, amount).contains((dim, amount)),
        forall|x: Amount|
            x.0 != dim ==> (#[trigger] amount_set(s, dim, amount).contains(x) <==> s.contains(x)),
    decreases s.len(),
{
    let r = amount_set(s, dim, amount);
    if s.len() == 0 {
        assert(r[0] == (dim, amount));
    } else {
        let front = s.drop_last();
        let k = s.len() - 1;
        assert(by_dimension(front));
        assert forall|x: Amount| s.contains(x) <==> (front.contains(x) || x == s.last()) by {
            if s.contains(x) {
                let i = choose|i: int| 0 <= i < s.len() && s[i] == x;
                if i < k {
                    assert(front[i] == x);
                }
            }
            if front.contains(x) {
                let i = choose|i: int| 0 <= i < front.len() && front[i] == x;
                assert(s[i] == x);
            }
            if x == s.last() {
                assert(s[k] == x);
            }
        }
        let base = if s.last().0 == dim {
            front
        } else if lex_lt(dim, s.last().0) {
            amount_set(front, dim, amount)
        } else {
            s
        };
        assert(base == r.drop_last());
        assert forall|x: Amount| r.contains(x) <==> (base.contains(x) || x == r.last()) by {
            if r.contains(x) {
                let i = choose|i: int| 0 <= i < r.len() && r[i] == x;
                if i < r.len() - 1 {
                    assert(base[i] == x);
                }
            }
            if base.contains(x) {
                let i = choose|i: int| 0 <= i < base.len() && base[i] == x;
                assert(r[i] == x);
            }
            if x == r.last() {
                assert(r[r.len() - 1] == x);
            }
        }
        if s.last().0 != dim && lex_lt(dim, s.last().0) {
            lemma_amount_is_set(front, dim, amount);
        }
    }
}

} // verus!
