use vstd::prelude::*;

verus! {

/// The abstract state of one account holder.
pub struct UserView {
    pub name: Seq<char>,
    pub credit_line: u64,
    pub balance: i64,
}

/// An account holder. A positive balance is a debit balance (assets of the
/// bank), a negative one is credit extended to the customer.
#[derive(Debug, Clone)]
pub struct User {
    name: String,
    credit_line: u64,
    balance: i64,
}

impl View for User {
    type V = UserView;

    closed spec fn view(&self) -> UserView {
        UserView { name: self.name@, credit_line: self.credit_line, balance: self.balance }
    }
}

impl User {
    pub fn new(name: String, credit_line: u64, balance: i64) -> (r: Self)
        ensures
            r@ == (UserView { name: name@, credit_line, balance }),
    {
        User { name, credit_line, balance }
    }

    pub fn get_name(&self) -> (r: &String)
        ensures
            r@ == self@.name,
    {
        &self.name
    }

    pub fn get_balance(&self) -> (r: i64)
        ensures
            r == self@.balance,
    {
        self.balance
    }

    /// Adds `amount` (which may be negative) to the balance.
    pub fn add_balance(&mut self, amount: i64)
        requires
            i64::MIN <= old(self)@.balance + amount <= i64::MAX,
        ensures
            final(self)@ == (UserView { balance: (old(self)@.balance + amount) as i64, ..old(self)@ }),
    {
        self.balance = self.balance + amount;
    }
}


/// Why a ledger operation was refused.
#[derive(Debug, Clone, Copy, PartialEq, Eq, Structural)]
pub enum BankError {
    UserNotFound,
    InsufficientFunds,
    Overflow,
}

/// A bank: its customers keyed by name, and its interest rates in basis
/// points (one basis point is 1/10 000).
#[derive(Debug, Clone)]
pub struct Bank {
    users: Vec<User>,
    name: String,
    credit_interest: u64,
    debit_interest: u64,
}

/// No two users of `s` share a name.
pub open spec fn names_unique(s: Seq<User>) -> bool {
    forall|i: int, j: int|
        0 <= i < s.len() && 0 <= j < s.len() && i != j ==> #[trigger] s[i]@.name != #[trigger] s[j]@.name
}

/// The accounts of a list of users, keyed by name.
pub open spec fn users_map(s: Seq<User>) -> Map<Seq<char>, UserView>
    decreases s.len(),
{
    if s.len() == 0 {
        Map::empty()
    } else {
        users_map(s.drop_last()).insert(s.last()@.name, s.last()@)
    }
}

/// Every account is filed under its holder's name, and there are finitely many.
pub open spec fn accounts_wf(m: Map<Seq<char>, UserView>) -> bool {
    &&& m.dom().finite()
    &&& forall|n: Seq<char>| #[trigger] m.contains_key(n) ==> m[n].name == n
}

proof fn lemma_users_map(s: Seq<User>)
    ensures
        accounts_wf(users_map(s)),
        forall|i: int| 0 <= i < s.len() ==> users_map(s).contains_key(#[trigger] s[i]@.name),
        forall|n: Seq<char>| #[trigger]
            users_map(s).contains_key(n) ==> exists|i: int| 0 <= i < s.len() && s[i]@.name == n,
        names_unique(s) ==> forall|i: int|
            0 <= i < s.len() ==> users_map(s)[#[trigger] s[i]@.name] == s[i]@,
    decreases s.len(),
{
    if s.len() > 0 {
        let d = s.drop_last();
        lemma_users_map(d);
        let m = users_map(s);
        assert forall|i: int| 0 <= i < s.len() implies m.contains_key(#[trigger] s[i]@.name) by {
            if i < s.len() - 1 {
                assert(d[i] == s[i]);
            }
        }
        assert forall|n: Seq<char>| #[trigger]
            m.contains_key(n) implies exists|i: int| 0 <= i < s.len() && s[i]@.name == n by {
            if n != s.last()@.name {
                let j = choose|j: int| 0 <= j < d.len() && d[j]@.name == n;
                assert(s[j] == d[j]);
            }
        }
        if names_unique(s) {
            assert(names_unique(d)) by {
                assert forall|i: int, j: int|
                    0 <= i < d.len() && 0 <= j < d.len() && i != j implies #[trigger] d[i]@.name
                    != #[trigger] d[j]@.name by {
                    assert(d[i] == s[i] && d[j] == s[j]);
                }
            }
            assert forall|i: int| 0 <= i < s.len() implies m[#[trigger] s[i]@.name] == s[i]@ by {
                if i < s.len() - 1 {
                    assert(d[i] == s[i]);
                    assert(s[i]@.name != s[s.len() - 1]@.name);
                }
            }
        }
    }
}

proof fn lemma_unique_drop_last(s: Seq<User>)
    requires
        names_unique(s),
        s.len() > 0,
    ensures
        names_unique(s.drop_last()),
        !users_map(s.drop_last()).contains_key(s.last()@.name),
{
    let d = s.drop_last();
    assert forall|i: int, j: int|
        0 <= i < d.len() && 0 <= j < d.len() && i != j implies #[trigger] d[i]@.name
        != #[trigger] d[j]@.name by {
        assert(d[i] == s[i] && d[j] == s[j]);
    }
    lemma_users_map(d);
    if users_map(d).contains_key(s.last()@.name) {
        let j = choose|j: int| 0 <= j < d.len() && d[j]@.name == s.last()@.name;
        assert(d[j] == s[j]);
    }
}

proof fn lemma_users_map_update(s: Seq<User>, i: int, u: User)
    requires
        names_unique(s),
        0 <= i < s.len(),
        u@.name == s[i]@.name,
    ensures
        names_unique(s.update(i, u)),
        users_map(s.update(i, u)) == users_map(s).insert(u@.name, u@),
    decreases s.len(),
{
    let t = s.update(i, u);
    assert forall|a: int, b: int|
        0 <= a < t.len() && 0 <= b < t.len() && a != b implies #[trigger] t[a]@.name
        != #[trigger] t[b]@.name by {
        assert(s[a]@.name == t[a]@.name && s[b]@.name == t[b]@.name);
    }
    lemma_unique_drop_last(s);
    if i == s.len() - 1 {
        assert(t.drop_last() =~= s.drop_last());
        assert(users_map(t) =~= users_map(s).insert(u@.name, u@));
    } else {
        assert(t.drop_last() =~= s.drop_last().update(i, u));
        lemma_users_map_update(s.drop_last(), i, u);
        assert(s.last()@.name != u@.name);
        assert(users_map(t) =~= users_map(s).insert(u@.name, u@));
    }
}

/// Adds what `f` gives for one account to a running total.
pub open spec fn adder(f: spec_fn(UserView) -> int) -> spec_fn(int, UserView) -> int {
    |acc: int, u: UserView| acc + f(u)
}

/// The sum of `f` over all accounts of `m`.
pub open spec fn sum_over(m: Map<Seq<char>, UserView>, f: spec_fn(UserView) -> int) -> int {
    m.values().fold(0int, adder(f))
}

/// What one account owes the customer: `max(0, -balance)`.
pub open spec fn liability_part() -> spec_fn(UserView) -> int {
    |u: UserView| if u.balance < 0 { -(u.balance as int) } else { 0 }
}

/// What one account holds for the bank: `max(0, balance)`.
pub open spec fn asset_part() -> spec_fn(UserView) -> int {
    |u: UserView| if u.balance >= 0 { u.balance as int } else { 0 }
}

/// One account's balance.
pub open spec fn balance_part() -> spec_fn(UserView) -> int {
    |u: UserView| u.balance as int
}

/// The credit extended to all customers together.
pub open spec fn liabilities(m: Map<Seq<char>, UserView>) -> int {
    sum_over(m, liability_part())
}

/// The debit balances of all customers together.
pub open spec fn assets(m: Map<Seq<char>, UserView>) -> int {
    sum_over(m, asset_part())
}

/// The sum of all balances.
pub open spec fn total_balance(m: Map<Seq<char>, UserView>) -> int {
    sum_over(m, balance_part())
}

/// The sum of `f` over a list of users, in order.
pub open spec fn seq_sum(s: Seq<User>, f: spec_fn(UserView) -> int) -> int
    decreases s.len(),
{
    if s.len() == 0 {
        0
    } else {
        seq_sum(s.drop_last(), f) + f(s.last()@)
    }
}

proof fn lemma_adder_commutative(f: spec_fn(UserView) -> int)
    ensures
        vstd::set::fold::is_fun_commutative(adder(f)),
{
    assert forall|a1: UserView, a2: UserView, b: int|
        #[trigger] adder(f)(adder(f)(b, a2), a1) == adder(f)(adder(f)(b, a1), a2) by {}
}

/// Adding an account under a new name adds its part to the sum.
proof fn lemma_sum_over_insert(m: Map<Seq<char>, UserView>, f: spec_fn(UserView) -> int, v: UserView)
    requires
        accounts_wf(m),
        !m.contains_key(v.name),
    ensures
        accounts_wf(m.insert(v.name, v)),
        sum_over(m.insert(v.name, v), f) == sum_over(m, f) + f(v),
{
    let m2 = m.insert(v.name, v);
    assert(m2.values() =~= m.values().insert(v)) by {
        assert forall|x: UserView| #[trigger] m.values().contains(x) implies m2.values().contains(x) by {
            let k = choose|k: Seq<char>| m.dom().contains(k) && m[k] == x;
            assert(m2.dom().contains(k) && m2[k] == x);
        }
        assert(m2.dom().contains(v.name) && m2[v.name] == v);
    }
    assert(!m.values().contains(v));
    vstd::map_lib::lemma_values_finite(m);
    lemma_adder_commutative(f);
    vstd::set::fold::lemma_fold_insert(m.values(), 0int, adder(f), v);
}

proof fn lemma_sum_over_empty(f: spec_fn(UserView) -> int)
    ensures
        sum_over(Map::<Seq<char>, UserView>::empty(), f) == 0,
{
    assert(Map::<Seq<char>, UserView>::empty().values() =~= Set::<UserView>::empty());
    vstd::set::fold::lemma_fold_empty(0int, adder(f));
}

/// Over a list of users with distinct names, the sum over the accounts is the
/// sum over the list.
proof fn lemma_sum_users_map(s: Seq<User>, f: spec_fn(UserView) -> int)
    requires
        names_unique(s),
    ensures
        sum_over(users_map(s), f) == seq_sum(s, f),
    decreases s.len(),
{
    if s.len() == 0 {
        lemma_sum_over_empty(f);
    } else {
        let d = s.drop_last();
        lemma_unique_drop_last(s);
        lemma_sum_users_map(d, f);
        lemma_users_map(d);
        lemma_sum_over_insert(users_map(d), f, s.last()@);
    }
}

/// With no negative part, a prefix sums to no more than the whole list.
proof fn lemma_seq_sum_prefix(s: Seq<User>, f: spec_fn(UserView) -> int, i: int)
    requires
        0 <= i <= s.len(),
        forall|u: UserView| #[trigger] f(u) >= 0,
    ensures
        seq_sum(s.take(i), f) <= seq_sum(s, f),
    decreases s.len(),
{
    if i == s.len() {
        assert(s.take(i) =~= s);
    } else {
        assert(s.take(i) =~= s.drop_last().take(i));
        lemma_seq_sum_prefix(s.drop_last(), f, i);
    }
}

/// `u` with its balance set to `b`.
pub open spec fn with_balance(u: UserView, b: int) -> UserView {
    UserView { balance: b as i64, ..u }
}

/// Whether moving `amount` from `from` to `to` goes through, and if not, why.
pub open spec fn transfer_result(
    m: Map<Seq<char>, UserView>,
    from: Seq<char>,
    to: Seq<char>,
    amount: int,
) -> Result<(), BankError> {
    if !m.contains_key(from) || !m.contains_key(to) {
        Err(BankError::UserNotFound)
    } else if m[from].balance < amount {
        Err(BankError::InsufficientFunds)
    } else if m[to].balance + amount > i64::MAX {
        Err(BankError::Overflow)
    } else {
        Ok(())
    }
}

/// The accounts after `amount` is taken from `from` and then given to `to`.
pub open spec fn transferred(
    m: Map<Seq<char>, UserView>,
    from: Seq<char>,
    to: Seq<char>,
    amount: int,
) -> Map<Seq<char>, UserView> {
    let m1 = m.insert(from, with_balance(m[from], m[from].balance - amount));
    m1.insert(to, with_balance(m1[to], m1[to].balance + amount))
}

/// A balance after one accrual of interest: a debit balance grows by
/// `floor(b * credit / 10 000)`, a credit balance by `floor(|b| * debit / 10 000)`
/// further below zero.
pub open spec fn accrued(b: i64, credit: u64, debit: u64) -> int {
    if b < 0 {
        b - (-(b as int)) * debit / 10000
    } else {
        b + (b as int) * credit / 10000
    }
}

/// An account after one accrual of interest.
pub open spec fn accrual(credit: u64, debit: u64) -> spec_fn(UserView) -> UserView {
    |u: UserView| with_balance(u, accrued(u.balance, credit, debit))
}

/// Every balance of `m` still fits an `i64` after one accrual of interest.
pub open spec fn accrual_fits(m: Map<Seq<char>, UserView>, credit: u64, debit: u64) -> bool {
    forall|n: Seq<char>|
        #[trigger] m.contains_key(n) ==> i64::MIN <= accrued(m[n].balance, credit, debit)
            <= i64::MAX
}

/// Changing every user by a map that keeps names changes every account alike.
proof fn lemma_users_map_map_values(s: Seq<User>, t: Seq<User>, g: spec_fn(UserView) -> UserView)
    requires
        s.len() == t.len(),
        forall|k: int| 0 <= k < s.len() ==> #[trigger] t[k]@ == g(s[k]@),
        forall|u: UserView| #[trigger] g(u).name == u.name,
    ensures
        users_map(t) == users_map(s).map_values(g),
    decreases s.len(),
{
    if s.len() > 0 {
        let (ds, dt) = (s.drop_last(), t.drop_last());
        assert forall|k: int| 0 <= k < ds.len() implies #[trigger] dt[k]@ == g(ds[k]@) by {
            assert(dt[k] == t[k] && ds[k] == s[k]);
        }
        lemma_users_map_map_values(ds, dt, g);
        assert(t.last()@ == g(s.last()@));
        assert(users_map(t) =~= users_map(s).map_values(g));
    }
}

/// The accounts after the customers of `b` join those of `a`: a name found in
/// both keeps `a`'s record, with the two balances added.
pub open spec fn merged(a: Map<Seq<char>, UserView>, b: Map<Seq<char>, UserView>) -> Map<
    Seq<char>,
    UserView,
> {
    Map::new(
        |n: Seq<char>| a.contains_key(n) || b.contains_key(n),
        |n: Seq<char>|
            if a.contains_key(n) && b.contains_key(n) {
                with_balance(a[n], a[n].balance + b[n].balance)
            } else if a.contains_key(n) {
                a[n]
            } else {
                b[n]
            },
    )
}

/// Some name is found in both `a` and `b`, and its two balances added leave
/// the range of an `i64`.
pub open spec fn merge_overflows(a: Map<Seq<char>, UserView>, b: Map<Seq<char>, UserView>) -> bool {
    exists|n: Seq<char>|
        #[trigger] a.contains_key(n) && #[trigger] b.contains_key(n) && !(i64::MIN <= a[n].balance
            + b[n].balance <= i64::MAX)
}

/// The balance filed under `n`, or 0 where there is none.
pub open spec fn balance_in(m: Map<Seq<char>, UserView>, n: Seq<char>) -> int {
    if m.contains_key(n) {
        m[n].balance as int
    } else {
        0
    }
}

/// Filing a user makes its record the one under its name; filing a second
/// user of the same name replaces the first.
pub proof fn lemma_add_user_replaces(m: Map<Seq<char>, UserView>, u1: UserView, u2: UserView)
    requires
        u1.name == u2.name,
    ensures
        m.insert(u1.name, u1).contains_key(u1.name),
        m.insert(u1.name, u1)[u1.name].balance == u1.balance,
        m.insert(u1.name, u1).insert(u2.name, u2) == m.insert(u2.name, u2),
{
    assert(m.insert(u1.name, u1).insert(u2.name, u2) =~= m.insert(u2.name, u2));
}

/// A transfer that goes through between two different users takes `amount`
/// from the one, gives it to the other, and leaves the sum of all balances
/// as it was.
pub proof fn lemma_transfer_conserves(
    m: Map<Seq<char>, UserView>,
    from: Seq<char>,
    to: Seq<char>,
    amount: int,
)
    requires
        accounts_wf(m),
        from != to,
        amount >= 0,
        transfer_result(m, from, to, amount) is Ok,
    ensures
        transferred(m, from, to, amount).dom() == m.dom(),
        transferred(m, from, to, amount)[from].balance == m[from].balance - amount,
        transferred(m, from, to, amount)[to].balance == m[to].balance + amount,
        total_balance(transferred(m, from, to, amount)) == total_balance(m),
{
    let t = transferred(m, from, to, amount);
    let r = m.remove(from).remove(to);
    let f = balance_part();
    assert(accounts_wf(r));
    assert(m =~= r.insert(from, m[from]).insert(to, m[to]));
    assert(t =~= r.insert(from, t[from]).insert(to, t[to]));
    lemma_sum_over_insert(r, f, m[from]);
    lemma_sum_over_insert(r.insert(from, m[from]), f, m[to]);
    lemma_sum_over_insert(r, f, t[from]);
    lemma_sum_over_insert(r.insert(from, t[from]), f, t[to]);
}

/// After a merge without overflow a name is known where it was known to
/// either bank, and its balance is the sum of its two old balances (0 where
/// it was absent).
pub proof fn lemma_merged_balances(a: Map<Seq<char>, UserView>, b: Map<Seq<char>, UserView>, n: Seq<char>)
    requires
        !merge_overflows(a, b),
    ensures
        merged(a, b).contains_key(n) <==> a.contains_key(n) || b.contains_key(n),
        balance_in(merged(a, b), n) == balance_in(a, n) + balance_in(b, n),
{
    if a.contains_key(n) && b.contains_key(n) {
        assert(i64::MIN <= a[n].balance + b[n].balance <= i64::MAX);
    }
}

impl View for Bank {
    type V = Map<Seq<char>, UserView>;

    closed spec fn view(&self) -> Map<Seq<char>, UserView> {
        users_map(self.users@)
    }
}

impl Bank {
    /// No two users share a name.
    pub closed spec fn wf(&self) -> bool {
        names_unique(self.users@)
    }

    pub closed spec fn bank_name(&self) -> Seq<char> {
        self.name@
    }

    pub closed spec fn credit_rate(&self) -> u64 {
        self.credit_interest
    }

    pub closed spec fn debit_rate(&self) -> u64 {
        self.debit_interest
    }

    /// The accounts are filed under their holders' names.
    pub proof fn lemma_wf(&self)
        ensures
            accounts_wf(self@),
    {
        lemma_users_map(self.users@);
    }

    /// An empty bank.
    pub fn new(name: String, credit_interest: u64, debit_interest: u64) -> (r: Self)
        ensures
            r.wf(),
            r@ == Map::<Seq<char>, UserView>::empty(),
            r.bank_name() == name@,
            r.credit_rate() == credit_interest,
            r.debit_rate() == debit_interest,
    {
        Bank { users: Vec::new(), name, credit_interest, debit_interest }
    }

    /// The position of the user called `name`, if there is one.
    fn find_user(&self, name: &String) -> (r: Option<usize>)
        requires
            self.wf(),
        ensures
            match r {
                Some(i) => i < self.users@.len() && self.users@[i as int]@.name == name@
                    && self@.contains_key(name@) && self@[name@] == self.users@[i as int]@,
                None => !self@.contains_key(name@),
            },
    {
        proof {
            lemma_users_map(self.users@);
        }
        let mut i: usize = 0;
        while i < self.users.len()
            invariant
                i <= self.users@.len(),
                self.wf(),
                forall|j: int| 0 <= j < i ==> self.users@[j]@.name != name@,
            decreases self.users@.len() - i,
        {
            if self.users[i].name == *name {
                proof {
                    lemma_users_map(self.users@);
                    assert(self.users@[i as int]@.name == name@);
                    assert(self.users@[i as int]@ == users_map(self.users@)[name@]);
                }
                return Some(i);
            }
            i = i + 1;
        }
        None
    }

    /// Files `user` under its name, replacing any user of that name.
    pub fn add_user(&mut self, user: User)
        requires
            old(self).wf(),
        ensures
            final(self).wf(),
            final(self)@ == old(self)@.insert(user@.name, user@),
            final(self).bank_name() == old(self).bank_name(),
            final(self).credit_rate() == old(self).credit_rate(),
            final(self).debit_rate() == old(self).debit_rate(),
    {
        match self.find_user(&user.name) {
            Some(i) => {
                proof {
                    lemma_users_map_update(self.users@, i as int, user);
                }
                self.users.set(i, user);
            },
            None => {
                proof {
                    lemma_users_map(self.users@);
                    let t = self.users@.push(user);
                    assert(t.drop_last() =~= self.users@);
                    assert forall|a: int, b: int|
                        0 <= a < t.len() && 0 <= b < t.len() && a != b implies #[trigger] t[a]@.name
                        != #[trigger] t[b]@.name by {
                        if a < t.len() - 1 {
                            assert(t[a] == self.users@[a]);
                        }
                        if b < t.len() - 1 {
                            assert(t[b] == self.users@[b]);
                        }
                    }
                }
                self.users.push(user);
            },
        }
    }

    /// The bank's liabilities (credit extended) and assets (debit balances).
    pub fn calc_balance(&self) -> (r: (u64, u64))
        requires
            self.wf(),
            liabilities(self@) <= u64::MAX,
            assets(self@) <= u64::MAX,
        ensures
            r.0 == liabilities(self@),
            r.1 == assets(self@),
    {
        let ghost s = self.users@;
        proof {
            lemma_sum_users_map(s, liability_part());
            lemma_sum_users_map(s, asset_part());
        }
        let mut liab: u64 = 0;
        let mut assets_sum: u64 = 0;
        let mut i: usize = 0;
        while i < self.users.len()
            invariant
                s == self.users@,
                i <= s.len(),
                liab == seq_sum(s.take(i as int), liability_part()),
                assets_sum == seq_sum(s.take(i as int), asset_part()),
                seq_sum(s, liability_part()) <= u64::MAX,
                seq_sum(s, asset_part()) <= u64::MAX,
            decreases s.len() - i,
        {
            proof {
                assert(s.take(i + 1).drop_last() =~= s.take(i as int));
                lemma_seq_sum_prefix(s, liability_part(), i + 1);
                lemma_seq_sum_prefix(s, asset_part(), i + 1);
            }
            let b = self.users[i].balance;
            if b < 0 {
                liab = liab + (-(b as i128)) as u64;
            } else {
                assets_sum = assets_sum + b as u64;
            }
            i = i + 1;
        }
        proof {
            assert(s.take(s.len() as int) =~= s);
        }
        (liab, assets_sum)
    }

    /// Sets the balance of the user at position `i`.
    fn set_balance(&mut self, i: usize, b: i64)
        requires
            old(self).wf(),
            i < old(self).users@.len(),
        ensures
            final(self).wf(),
            final(self)@ == old(self)@.insert(
                old(self).users@[i as int]@.name,
                with_balance(old(self).users@[i as int]@, b as int),
            ),
            final(self).users@.len() == old(self).users@.len(),
            forall|k: int|
                0 <= k < old(self).users@.len() ==> #[trigger] final(self).users@[k]@.name
                    == old(self).users@[k]@.name,
            final(self).users@[i as int]@ == with_balance(old(self).users@[i as int]@, b as int),
            forall|k: int|
                0 <= k < old(self).users@.len() && k != i ==> #[trigger] final(self).users@[k]
                    == old(self).users@[k],
            final(self).name == old(self).name,
            final(self).credit_interest == old(self).credit_interest,
            final(self).debit_interest == old(self).debit_interest,
    {
        let ghost s = self.users@;
        self.users[i].balance = b;
        proof {
            assert(self.users@ == s.update(i as int, self.users@[i as int]));
            lemma_users_map_update(s, i as int, self.users@[i as int]);
        }
    }

    /// Moves `amount` from the user called `from_user` to the one called
    /// `to_user`. On failure nothing changes.
    pub fn transfer_funds(&mut self, from_user: &str, to_user: &str, amount: u64) -> (r: Result<
        (),
        BankError,
    >)
        requires
            old(self).wf(),
        ensures
            final(self).wf(),
            r == transfer_result(old(self)@, from_user@, to_user@, amount as int),
            r is Ok ==> final(self)@ == transferred(old(self)@, from_user@, to_user@, amount as int),
            r is Err ==> final(self)@ == old(self)@,
            final(self).bank_name() == old(self).bank_name(),
            final(self).credit_rate() == old(self).credit_rate(),
            final(self).debit_rate() == old(self).debit_rate(),
    {
        let from_name = from_user.to_owned();
        let to_name = to_user.to_owned();
        let i = match self.find_user(&from_name) {
            Some(i) => i,
            None => return Err(BankError::UserNotFound),
        };
        let j = match self.find_user(&to_name) {
            Some(j) => j,
            None => return Err(BankError::UserNotFound),
        };
        let from_balance = self.users[i].balance;
        let to_balance = self.users[j].balance;
        if (from_balance as i128) < (amount as i128) {
            return Err(BankError::InsufficientFunds);
        }
        if (to_balance as i128) + (amount as i128) > i64::MAX as i128 {
            return Err(BankError::Overflow);
        }
        let ghost m0 = self@;
        self.set_balance(i, from_balance - amount as i64);
        let ghost m1 = self@;
        proof {
            lemma_users_map(self.users@);
            assert(self.users@[j as int]@.name == to_user@);
            assert(m1[to_user@] == self.users@[j as int]@);
        }
        let new_to = self.users[j].balance + amount as i64;
        self.set_balance(j, new_to);
        proof {
            assert(m1 == m0.insert(from_user@, with_balance(m0[from_user@], m0[from_user@].balance - amount)));
            assert(self.users@[j as int]@.name == to_user@);
        }
        Ok(())
    }

    /// Applies one accrual of interest to every user.
    pub fn accrue_interest(&mut self)
        requires
            old(self).wf(),
            accrual_fits(old(self)@, old(self).credit_rate(), old(self).debit_rate()),
        ensures
            final(self).wf(),
            final(self)@ == old(self)@.map_values(
                accrual(old(self).credit_rate(), old(self).debit_rate()),
            ),
            final(self).bank_name() == old(self).bank_name(),
            final(self).credit_rate() == old(self).credit_rate(),
            final(self).debit_rate() == old(self).debit_rate(),
    {
        let ghost s0 = self.users@;
        let ghost g = accrual(self.credit_interest, self.debit_interest);
        proof {
            lemma_users_map(s0);
            assert forall|k: int| 0 <= k < s0.len() implies i64::MIN <= #[trigger] accrued(
                s0[k]@.balance,
                self.credit_interest,
                self.debit_interest,
            ) <= i64::MAX by {
                assert(self@.contains_key(s0[k]@.name));
            }
        }
        let mut i: usize = 0;
        while i < self.users.len()
            invariant
                self.wf(),
                i <= s0.len(),
                self.users@.len() == s0.len(),
                g == accrual(self.credit_interest, self.debit_interest),
                forall|k: int| 0 <= k < i ==> #[trigger] self.users@[k]@ == g(s0[k]@),
                forall|k: int| i <= k < s0.len() ==> #[trigger] self.users@[k] == s0[k],
                forall|k: int|
                    0 <= k < s0.len() ==> i64::MIN <= #[trigger] accrued(
                        s0[k]@.balance,
                        self.credit_interest,
                        self.debit_interest,
                    ) <= i64::MAX,
                self.name == old(self).name,
                self.credit_interest == old(self).credit_interest,
                self.debit_interest == old(self).debit_interest,
            decreases s0.len() - i,
        {
            let b = self.users[i].balance;
            let nb: i128 = if b < 0 {
                let mag: u128 = (-(b as i128)) as u128;
                let rate: u128 = self.debit_interest as u128;
                assert(mag * rate <= 0x8000_0000_0000_0000u128 * 0xffff_ffff_ffff_ffffu128)
                    by (nonlinear_arith)
                    requires
                        mag <= 0x8000_0000_0000_0000u128,
                        rate <= 0xffff_ffff_ffff_ffffu128,
                ;
                (b as i128) - ((mag * rate) / 10000) as i128
            } else {
                let mag: u128 = b as u128;
                let rate: u128 = self.credit_interest as u128;
                assert(mag * rate <= 0x8000_0000_0000_0000u128 * 0xffff_ffff_ffff_ffffu128)
                    by (nonlinear_arith)
                    requires
                        mag <= 0x8000_0000_0000_0000u128,
                        rate <= 0xffff_ffff_ffff_ffffu128,
                ;
                (b as i128) + ((mag * rate) / 10000) as i128
            };
            proof {
                assert(s0[i as int] == self.users@[i as int]);
                assert(nb == accrued(b, self.credit_interest, self.debit_interest));
            }
            self.set_balance(i, nb as i64);
            i = i + 1;
        }
        proof {
            assert forall|u: UserView| #[trigger] g(u).name == u.name by {}
            lemma_users_map_map_values(s0, self.users@, g);
        }
    }

    /// Moves every customer of `other_bank` into this bank; a customer known to
    /// both keeps this bank's record, with the two balances added. Where such a
    /// sum would overflow, nothing changes and `Overflow` is returned.
    pub fn merge_bank(&mut self, other_bank: &mut Bank) -> (r: Result<(), BankError>)
        requires
            old(self).wf(),
            old(other_bank).wf(),
        ensures
            final(self).wf(),
            final(other_bank).wf(),
            r is Err <==> merge_overflows(old(self)@, old(other_bank)@),
            r is Err ==> r == Err::<(), BankError>(BankError::Overflow) && final(self)@ == old(
                self,
            )@ && final(other_bank)@ == old(other_bank)@,
            r is Ok ==> final(self)@ == merged(old(self)@, old(other_bank)@) && final(other_bank)@
                == Map::<Seq<char>, UserView>::empty(),
            final(self).bank_name() == old(self).bank_name(),
            final(self).credit_rate() == old(self).credit_rate(),
            final(self).debit_rate() == old(self).debit_rate(),
            final(other_bank).bank_name() == old(other_bank).bank_name(),
            final(other_bank).credit_rate() == old(other_bank).credit_rate(),
            final(other_bank).debit_rate() == old(other_bank).debit_rate(),
    {
        let ghost a0 = self@;
        let ghost b0 = other_bank@;
        let ghost s0 = other_bank.users@;
        proof {
            lemma_users_map(s0);
        }
        let mut k: usize = 0;
        while k < other_bank.users.len()
            invariant
                self.wf(),
                other_bank.wf(),
                self@ == a0,
                other_bank.users@ == s0,
                b0 == users_map(s0),
                k <= s0.len(),
                forall|j: int|
                    0 <= j < k ==> !a0.contains_key(#[trigger] s0[j]@.name) || i64::MIN <= a0[s0[j]@.name].balance
                        + s0[j]@.balance <= i64::MAX,
            decreases s0.len() - k,
        {
            match self.find_user(&other_bank.users[k].name) {
                Some(i) => {
                    let sum = self.users[i].balance as i128 + other_bank.users[k].balance as i128;
                    if sum < i64::MIN as i128 || sum > i64::MAX as i128 {
                        proof {
                            lemma_users_map(s0);
                            let n = s0[k as int]@.name;
                            assert(b0[n] == s0[k as int]@);
                            assert(a0.contains_key(n) && b0.contains_key(n));
                        }
                        return Err(BankError::Overflow);
                    }
                },
                None => {},
            }
            k = k + 1;
        }
        proof {
            assert forall|n: Seq<char>| a0.contains_key(n) && b0.contains_key(n) implies i64::MIN
                <= a0[n].balance + b0[n].balance <= i64::MAX by {
                let j = choose|j: int| 0 <= j < s0.len() && s0[j]@.name == n;
                assert(b0[s0[j]@.name] == s0[j]@);
            }
            lemma_users_map(self.users@);
            lemma_users_map(other_bank.users@);
            assert(merged(self@, other_bank@) =~= merged(a0, b0));
        }
        while other_bank.users.len() > 0
            invariant
                self.wf(),
                other_bank.wf(),
                merged(self@, other_bank@) == merged(a0, b0),
                forall|n: Seq<char>|
                    self@.contains_key(n) && other_bank@.contains_key(n) ==> i64::MIN
                        <= #[trigger] self@[n].balance + #[trigger] other_bank@[n].balance <= i64::MAX,
                self.bank_name() == old(self).bank_name(),
                self.credit_rate() == old(self).credit_rate(),
                self.debit_rate() == old(self).debit_rate(),
                other_bank.name == old(other_bank).name,
                other_bank.credit_interest == old(other_bank).credit_interest,
                other_bank.debit_interest == old(other_bank).debit_interest,
            decreases other_bank.users@.len(),
        {
            let ghost s = other_bank.users@;
            let ghost a = self@;
            let ghost b = other_bank@;
            proof {
                lemma_unique_drop_last(s);
                lemma_users_map(s);
                lemma_users_map(s.drop_last());
                lemma_users_map(self.users@);
            }
            let u = match other_bank.users.pop() {
                Some(u) => u,
                None => {
                    return Ok(());
                },
            };
            let ghost n = u@.name;
            proof {
                assert(other_bank.users@ == s.drop_last());
                assert(b == other_bank@.insert(n, u@));
            }
            match self.find_user(&u.name) {
                Some(i) => {
                    proof {
                        assert(a.contains_key(n) && b.contains_key(n));
                        assert(i64::MIN <= a[n].balance + b[n].balance <= i64::MAX);
                    }
                    let sum = self.users[i].balance + u.balance;
                    self.set_balance(i, sum);
                },
                None => {
                    self.add_user(u);
                },
            }
            proof {
                lemma_users_map(self.users@);
                assert(merged(self@, other_bank@) =~= merged(a, b));
            }
        }
        proof {
            assert(other_bank.users@ =~= Seq::<User>::empty());
            assert(other_bank@ =~= Map::<Seq<char>, UserView>::empty());
            lemma_users_map(self.users@);
            assert(self@ =~= merged(self@, other_bank@));
        }
        Ok(())
    }

    /// The record of the user called `name`, if there is one.
    pub fn get_user(&self, name: &str) -> (r: Option<&User>)
        requires
            self.wf(),
        ensures
            match r {
                Some(u) => self@.contains_key(name@) && u@ == self@[name@],
                None => !self@.contains_key(name@),
            },
    {
        let key = name.to_owned();
        match self.find_user(&key) {
            Some(i) => Some(&self.users[i]),
            None => None,
        }
    }

    /// Whether a user called `name` is in the bank.
    pub fn contains_user(&self, name: &str) -> (r: bool)
        requires
            self.wf(),
        ensures
            r == self@.contains_key(name@),
    {
        let key = name.to_owned();
        self.find_user(&key).is_some()
    }

    /// Whether the bank has no users.
    pub fn is_empty(&self) -> (r: bool)
        ensures
            r == (self@ == Map::<Seq<char>, UserView>::empty()),
    {
        proof {
            lemma_users_map(self.users@);
            if self.users@.len() > 0 {
                assert(self@.contains_key(self.users@[0]@.name));
            } else {
                assert(self@ =~= Map::<Seq<char>, UserView>::empty());
            }
        }
        self.users.len() == 0
    }

    /// All users, each once, in no meaningful order.
    pub fn users(&self) -> (r: &Vec<User>)
        requires
            self.wf(),
        ensures
            names_unique(r@),
            users_map(r@) == self@,
    {
        &self.users
    }

    pub fn get_name(&self) -> (r: &String)
        ensures
            r@ == self.bank_name(),
    {
        &self.name
    }

    pub fn get_credit_interest(&self) -> (r: u64)
        ensures
            r == self.credit_rate(),
    {
        self.credit_interest
    }

    pub fn get_debit_interest(&self) -> (r: u64)
        ensures
            r == self.debit_rate(),
    {
        self.debit_interest
    }
}

} // verus!
