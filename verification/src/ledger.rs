//! The account/transaction state machine: per-client accounts, stored
//! transaction records, and the rules that move funds between the available
//! and held balances.
//!
//! All monetary values are fixed-point decimals held as a signed count of
//! ten-thousandths (four fractional digits), so `12500` stands for `1.2500`.

use vstd::prelude::*;

verus! {

/// The lifecycle tag of a stored deposit record: it only ever moves
/// `Normal -> Disputed -> (Resolved | ChargedBack)`.
#[derive(Clone, Copy, Debug, PartialEq, Eq, Structural)]
pub enum DisputeState {
    Normal,
    Disputed,
    Resolved,
    ChargedBack,
}

/// What a stored transaction record holds: only deposits carry a dispute
/// state, since withdrawals can never be disputed.
#[derive(Clone, Copy, Debug, PartialEq, Eq, Structural)]
pub enum TxDetail {
    Deposit { amount: i64, state: DisputeState },
    Withdrawal { amount: i64 },
}

/// A stored transaction record, created by a successful deposit or
/// withdrawal and never deleted.
#[derive(Clone, Copy, Debug, PartialEq, Eq, Structural)]
pub struct TxRecord {
    pub tx: u32,
    pub detail: TxDetail,
}

/// One client's account.
pub struct Account {
    pub client: u16,
    pub available: i64,
    pub held: i64,
    pub locked: bool,
    pub txs: Vec<TxRecord>,
}

/// The ledger: one account per client seen so far, kept in ascending order
/// of client id.
pub struct Engine {
    pub accounts: Vec<Account>,
}

/// One normalized transaction command, ready to be applied to the ledger.
#[derive(Clone, Copy, Debug, PartialEq, Eq, Structural)]
pub enum Command {
    Deposit { client: u16, tx: u32, amount: i64 },
    Withdrawal { client: u16, tx: u32, amount: i64 },
    Dispute { client: u16, tx: u32 },
    Resolve { client: u16, tx: u32 },
    Chargeback { client: u16, tx: u32 },
}

/// The mathematical model of one account: unbounded balances and the stored
/// records as a map from transaction id to record contents.
pub ghost struct AccountModel {
    pub available: int,
    pub held: int,
    pub locked: bool,
    pub txs: Map<u32, TxDetail>,
}

impl AccountModel {
    /// The state of an account that has never accepted a transaction.
    pub open spec fn initial() -> AccountModel {
        AccountModel { available: 0, held: 0, locked: false, txs: Map::empty() }
    }

    /// The total balance is derived, never stored.
    pub open spec fn total(self) -> int {
        self.available + self.held
    }
}

/// The stored records of an account, as a map from transaction id to record
/// contents. A later record with the same id would shadow an earlier one,
/// but a well-formed account never holds two records with one id.
pub open spec fn txs_map(s: Seq<TxRecord>) -> Map<u32, TxDetail>
    decreases s.len(),
{
    if s.len() == 0 {
        Map::empty()
    } else {
        txs_map(s.drop_last()).insert(s.last().tx, s.last().detail)
    }
}

/// How much a stored record contributes to the held balance: the amount of
/// a deposit currently under dispute, and nothing otherwise.
pub open spec fn disputed_amount(d: TxDetail) -> int {
    match d {
        TxDetail::Deposit { amount, state } => if state is Disputed {
            amount as int
        } else {
            0
        },
        TxDetail::Withdrawal { .. } => 0,
    }
}

/// The sum of all currently disputed amounts: the held balance of a
/// well-formed account is exactly this sum.
pub open spec fn disputed_sum(s: Seq<TxRecord>) -> int
    decreases s.len(),
{
    if s.len() == 0 {
        0
    } else {
        disputed_sum(s.drop_last()) + disputed_amount(s.last().detail)
    }
}

/// The amount a stored record was created with.
pub open spec fn amount_of(d: TxDetail) -> int {
    match d {
        TxDetail::Deposit { amount, .. } => amount as int,
        TxDetail::Withdrawal { amount } => amount as int,
    }
}

impl View for Account {
    type V = AccountModel;

    open spec fn view(&self) -> AccountModel {
        AccountModel {
            available: self.available as int,
            held: self.held as int,
            locked: self.locked,
            txs: txs_map(self.txs@),
        }
    }
}

/// The accounts of a ledger, as a map from client id to account model.
pub open spec fn accounts_map(s: Seq<Account>) -> Map<u16, AccountModel>
    decreases s.len(),
{
    if s.len() == 0 {
        Map::empty()
    } else {
        accounts_map(s.drop_last()).insert(s.last().client, s.last()@)
    }
}

impl View for Engine {
    type V = Map<u16, AccountModel>;

    open spec fn view(&self) -> Map<u16, AccountModel> {
        accounts_map(self.accounts@)
    }
}

impl Account {
    /// The account invariant: record ids are unique, every stored amount is
    /// positive, and the held balance is exactly the sum of the currently
    /// disputed amounts -- in particular it is never negative.
    pub open spec fn wf(self) -> bool {
        &&& seq_tx_ids_distinct(self.txs@)
        &&& seq_amounts_positive(self.txs@)
        &&& self.held == disputed_sum(self.txs@)
        &&& self.held >= 0
    }
}

impl Engine {
    /// The ledger invariant: accounts are sorted by strictly increasing
    /// client id (so client ids are unique and snapshots are deterministic),
    /// and every account satisfies its own invariant.
    pub open spec fn wf(self) -> bool {
        &&& seq_clients_sorted(self.accounts@)
        &&& forall|i: int| 0 <= i < self.accounts@.len() ==> (#[trigger] self.accounts@[i]).wf()
    }

    /// An empty ledger with no accounts.
    pub fn new() -> (r: Engine)
        ensures
            r.wf(),
            r@ == Map::<u16, AccountModel>::empty(),
    {
        Engine { accounts: Vec::new() }
    }
}

impl Default for Engine {
    /// An empty ledger, the same as `Engine::new`.
    fn default() -> (r: Engine)
        ensures
            r.wf(),
            r@ == Map::<u16, AccountModel>::empty(),
    {
        Engine::new()
    }
}

/// The given client's account, materialized: deposits and withdrawals create
/// an account on first reference, even when the operation itself is then
/// rejected.
pub open spec fn materialize(m: Map<u16, AccountModel>, client: u16) -> Map<u16, AccountModel> {
    if m.dom().contains(client) {
        m
    } else {
        m.insert(client, AccountModel::initial())
    }
}

/// The effect of a deposit command. The deposit is a silent no-op when the
/// account is locked, the transaction id was already used by this client,
/// the amount is not positive, or the new balance would not fit the
/// fixed-width representation.
pub open spec fn spec_deposit(
    m: Map<u16, AccountModel>,
    client: u16,
    tx: u32,
    amount: i64,
) -> Map<u16, AccountModel> {
    let m1 = materialize(m, client);
    let a = m1[client];
    if a.locked || a.txs.dom().contains(tx) || amount <= 0 || a.available + amount > i64::MAX {
        m1
    } else {
        m1.insert(
            client,
            AccountModel {
                available: a.available + amount,
                held: a.held,
                locked: a.locked,
                txs: a.txs.insert(tx, TxDetail::Deposit { amount, state: DisputeState::Normal }),
            },
        )
    }
}

/// The effect of a withdrawal command. The withdrawal is a silent no-op when
/// the account is locked, the transaction id was already used by this
/// client, the amount is not positive, or the available balance (held funds
/// never count) is insufficient.
pub open spec fn spec_withdraw(
    m: Map<u16, AccountModel>,
    client: u16,
    tx: u32,
    amount: i64,
) -> Map<u16, AccountModel> {
    let m1 = materialize(m, client);
    let a = m1[client];
    if a.locked || a.txs.dom().contains(tx) || amount <= 0 || a.available < amount {
        m1
    } else {
        m1.insert(
            client,
            AccountModel {
                available: a.available - amount,
                held: a.held,
                locked: a.locked,
                txs: a.txs.insert(tx, TxDetail::Withdrawal { amount }),
            },
        )
    }
}

/// The effect of a dispute command. It is a silent no-op unless the client
/// has an account that is not locked and owns the named record, the record
/// is a deposit whose state is exactly Normal, and the moved funds fit the
/// fixed-width representation; then the amount moves from available to held
/// and the record becomes Disputed.
pub open spec fn spec_dispute(
    m: Map<u16, AccountModel>,
    client: u16,
    tx: u32,
) -> Map<u16, AccountModel> {
    if !m.dom().contains(client) {
        m
    } else {
        let a = m[client];
        if a.locked || !a.txs.dom().contains(tx) {
            m
        } else {
            match a.txs[tx] {
                TxDetail::Withdrawal { .. } => m,
                TxDetail::Deposit { amount, state } => {
                    if state != DisputeState::Normal {
                        m
                    } else if a.available - amount < i64::MIN || a.held + amount > i64::MAX {
                        m
                    } else {
                        m.insert(
                            client,
                            AccountModel {
                                available: a.available - amount,
                                held: a.held + amount,
                                locked: a.locked,
                                txs: a.txs.insert(
                                    tx,
                                    TxDetail::Deposit { amount, state: DisputeState::Disputed },
                                ),
                            },
                        )
                    }
                },
            }
        }
    }
}

/// The effect of a resolve command. It is a silent no-op unless the client
/// has an account that is not locked and owns the named record, the record
/// is a deposit whose state is exactly Disputed, and the released funds fit
/// the fixed-width representation; then the amount moves back from held to
/// available and the record becomes Resolved.
pub open spec fn spec_resolve(
    m: Map<u16, AccountModel>,
    client: u16,
    tx: u32,
) -> Map<u16, AccountModel> {
    if !m.dom().contains(client) {
        m
    } else {
        let a = m[client];
        if a.locked || !a.txs.dom().contains(tx) {
            m
        } else {
            match a.txs[tx] {
                TxDetail::Withdrawal { .. } => m,
                TxDetail::Deposit { amount, state } => {
                    if state != DisputeState::Disputed {
                        m
                    } else if a.available + amount > i64::MAX {
                        m
                    } else {
                        m.insert(
                            client,
                            AccountModel {
                                available: a.available + amount,
                                held: a.held - amount,
                                locked: a.locked,
                                txs: a.txs.insert(
                                    tx,
                                    TxDetail::Deposit { amount, state: DisputeState::Resolved },
                                ),
                            },
                        )
                    }
                },
            }
        }
    }
}

/// The effect of a chargeback command. It is a silent no-op unless the
/// client has an account that is not locked and owns the named record and
/// the record is a deposit whose state is exactly Disputed; then the held
/// amount is withdrawn, the record becomes ChargedBack, and the account is
/// locked for the rest of the run.
pub open spec fn spec_chargeback(
    m: Map<u16, AccountModel>,
    client: u16,
    tx: u32,
) -> Map<u16, AccountModel> {
    if !m.dom().contains(client) {
        m
    } else {
        let a = m[client];
        if a.locked || !a.txs.dom().contains(tx) {
            m
        } else {
            match a.txs[tx] {
                TxDetail::Withdrawal { .. } => m,
                TxDetail::Deposit { amount, state } => {
                    if state != DisputeState::Disputed {
                        m
                    } else {
                        m.insert(
                            client,
                            AccountModel {
                                available: a.available,
                                held: a.held - amount,
                                locked: true,
                                txs: a.txs.insert(
                                    tx,
                                    TxDetail::Deposit { amount, state: DisputeState::ChargedBack },
                                ),
                            },
                        )
                    }
                },
            }
        }
    }
}

/// The effect of one command on the whole ledger.
pub open spec fn spec_apply(m: Map<u16, AccountModel>, cmd: Command) -> Map<u16, AccountModel> {
    match cmd {
        Command::Deposit { client, tx, amount } => spec_deposit(m, client, tx, amount),
        Command::Withdrawal { client, tx, amount } => spec_withdraw(m, client, tx, amount),
        Command::Dispute { client, tx } => spec_dispute(m, client, tx),
        Command::Resolve { client, tx } => spec_resolve(m, client, tx),
        Command::Chargeback { client, tx } => spec_chargeback(m, client, tx),
    }
}

/// No two records of `s` share a transaction id.
pub open spec fn seq_tx_ids_distinct(s: Seq<TxRecord>) -> bool {
    forall|p: int, q: int| 0 <= p < q < s.len() ==> (#[trigger] s[p]).tx != (#[trigger] s[q]).tx
}

/// Every record of `s` was created with a positive amount.
pub open spec fn seq_amounts_positive(s: Seq<TxRecord>) -> bool {
    forall|p: int| 0 <= p < s.len() ==> amount_of((#[trigger] s[p]).detail) > 0
}

/// No two accounts of `s` share a client id (they are strictly sorted).
pub open spec fn seq_clients_sorted(s: Seq<Account>) -> bool {
    forall|p: int, q: int|
        0 <= p < q < s.len() ==> (#[trigger] s[p]).client < (#[trigger] s[q]).client
}

proof fn lemma_txs_map_get(s: Seq<TxRecord>, j: int)
    requires
        seq_tx_ids_distinct(s),
        0 <= j < s.len(),
    ensures
        txs_map(s).dom().contains(s[j].tx),
        txs_map(s)[s[j].tx] == s[j].detail,
    decreases s.len(),
{
    if j < s.len() - 1 {
        assert(s.drop_last()[j] == s[j]);
        lemma_txs_map_get(s.drop_last(), j);
    }
}

proof fn lemma_txs_map_absent(s: Seq<TxRecord>, tx: u32)
    requires
        forall|p: int| 0 <= p < s.len() ==> (#[trigger] s[p]).tx != tx,
    ensures
        !txs_map(s).dom().contains(tx),
    decreases s.len(),
{
    if s.len() > 0 {
        lemma_txs_map_absent(s.drop_last(), tx);
    }
}

proof fn lemma_txs_map_push(s: Seq<TxRecord>, r: TxRecord)
    ensures
        txs_map(s.push(r)) == txs_map(s).insert(r.tx, r.detail),
{
    assert(s.push(r).drop_last() =~= s);
}

proof fn lemma_txs_map_update(s: Seq<TxRecord>, j: int, r: TxRecord)
    requires
        seq_tx_ids_distinct(s),
        0 <= j < s.len(),
        r.tx == s[j].tx,
    ensures
        txs_map(s.update(j, r)) == txs_map(s).insert(r.tx, r.detail),
    decreases s.len(),
{
    let t = s.update(j, r);
    if j == s.len() - 1 {
        assert(t.drop_last() =~= s.drop_last());
        assert(txs_map(t) =~= txs_map(s).insert(r.tx, r.detail));
    } else {
        assert(t.drop_last() =~= s.drop_last().update(j, r));
        assert(s.drop_last()[j] == s[j]);
        lemma_txs_map_update(s.drop_last(), j, r);
        // the final record differs from r in its id, so the two inserts commute
        assert(s[j].tx != s.last().tx);
        assert(txs_map(t) =~= txs_map(s).insert(r.tx, r.detail));
    }
}

proof fn lemma_disputed_sum_update(s: Seq<TxRecord>, j: int, r: TxRecord)
    requires
        0 <= j < s.len(),
    ensures
        disputed_sum(s.update(j, r)) == disputed_sum(s) - disputed_amount(s[j].detail)
            + disputed_amount(r.detail),
    decreases s.len(),
{
    let t = s.update(j, r);
    if j == s.len() - 1 {
        assert(t.drop_last() =~= s.drop_last());
    } else {
        assert(t.drop_last() =~= s.drop_last().update(j, r));
        assert(s.drop_last()[j] == s[j]);
        lemma_disputed_sum_update(s.drop_last(), j, r);
        assert(t.last() == s.last());
    }
}

proof fn lemma_disputed_sum_nonneg(s: Seq<TxRecord>)
    requires
        seq_amounts_positive(s),
    ensures
        disputed_sum(s) >= 0,
    decreases s.len(),
{
    if s.len() > 0 {
        lemma_disputed_sum_nonneg(s.drop_last());
        assert(amount_of(s.last().detail) > 0);
    }
}

proof fn lemma_disputed_sum_element(s: Seq<TxRecord>, j: int)
    requires
        seq_amounts_positive(s),
        0 <= j < s.len(),
        disputed_amount(s[j].detail) == amount_of(s[j].detail),
    ensures
        disputed_sum(s) >= amount_of(s[j].detail),
    decreases s.len(),
{
    if j == s.len() - 1 {
        lemma_disputed_sum_nonneg(s.drop_last());
    } else {
        assert(s.drop_last()[j] == s[j]);
        lemma_disputed_sum_element(s.drop_last(), j);
        assert(amount_of(s.last().detail) > 0);
    }
}

proof fn lemma_accounts_map_get(s: Seq<Account>, i: int)
    requires
        seq_clients_sorted(s),
        0 <= i < s.len(),
    ensures
        accounts_map(s).dom().contains(s[i].client),
        accounts_map(s)[s[i].client] == s[i]@,
    decreases s.len(),
{
    if i < s.len() - 1 {
        assert(s.drop_last()[i] == s[i]);
        lemma_accounts_map_get(s.drop_last(), i);
    }
}

proof fn lemma_accounts_map_absent(s: Seq<Account>, c: u16)
    requires
        forall|p: int| 0 <= p < s.len() ==> (#[trigger] s[p]).client != c,
    ensures
        !accounts_map(s).dom().contains(c),
    decreases s.len(),
{
    if s.len() > 0 {
        lemma_accounts_map_absent(s.drop_last(), c);
    }
}

proof fn lemma_accounts_map_update(s: Seq<Account>, i: int, a: Account)
    requires
        seq_clients_sorted(s),
        0 <= i < s.len(),
        a.client == s[i].client,
    ensures
        accounts_map(s.update(i, a)) == accounts_map(s).insert(a.client, a@),
    decreases s.len(),
{
    let t = s.update(i, a);
    if i == s.len() - 1 {
        assert(t.drop_last() =~= s.drop_last());
        assert(accounts_map(t) =~= accounts_map(s).insert(a.client, a@));
    } else {
        assert(t.drop_last() =~= s.drop_last().update(i, a));
        assert(s.drop_last()[i] == s[i]);
        lemma_accounts_map_update(s.drop_last(), i, a);
        assert(s[i].client != s.last().client);
        assert(accounts_map(t) =~= accounts_map(s).insert(a.client, a@));
    }
}

proof fn lemma_disputed_sum_push(s: Seq<TxRecord>, r: TxRecord)
    ensures
        disputed_sum(s.push(r)) == disputed_sum(s) + disputed_amount(r.detail),
{
    assert(s.push(r).drop_last() =~= s);
}

proof fn lemma_accounts_map_insert(s: Seq<Account>, p: int, a: Account)
    requires
        forall|q: int| 0 <= q < s.len() ==> (#[trigger] s[q]).client != a.client,
        0 <= p <= s.len(),
    ensures
        accounts_map(s.insert(p, a)) == accounts_map(s).insert(a.client, a@),
    decreases s.len(),
{
    let t = s.insert(p, a);
    if p == s.len() {
        assert(t =~= s.push(a));
        assert(s.push(a).drop_last() =~= s);
    } else {
        assert(t.last() == s.last());
        assert(t.drop_last() =~= s.drop_last().insert(p, a));
        lemma_accounts_map_insert(s.drop_last(), p, a);
        assert(s.last().client != a.client);
        assert(accounts_map(t) =~= accounts_map(s).insert(a.client, a@));
    }
}

/// Behind every client of a well-formed ledger stands a well-formed
/// account, so in particular its held balance is never negative.
pub proof fn lemma_model_accounts_wf(e: Engine, client: u16)
    requires
        e.wf(),
        e@.dom().contains(client),
    ensures
        e@[client].held >= 0,
        exists|i: int|
            0 <= i < e.accounts@.len() && (#[trigger] e.accounts@[i]).client == client
                && e.accounts@[i]@ == e@[client],
{
    let s = e.accounts@;
    assert(exists|i: int| 0 <= i < s.len() && (#[trigger] s[i]).client == client) by {
        if !(exists|i: int| 0 <= i < s.len() && (#[trigger] s[i]).client == client) {
            lemma_accounts_map_absent(s, client);
        }
    }
    let i = choose|i: int| 0 <= i < s.len() && (#[trigger] s[i]).client == client;
    lemma_accounts_map_get(s, i);
}

impl Account {
    /// The position of the stored record with the given transaction id, if
    /// this account owns one.
    fn find_tx_idx(&self, tx: u32) -> (r: Option<usize>)
        requires
            seq_tx_ids_distinct(self.txs@),
        ensures
            match r {
                Some(j) => {
                    &&& j < self.txs@.len()
                    &&& self.txs@[j as int].tx == tx
                    &&& txs_map(self.txs@).dom().contains(tx)
                    &&& txs_map(self.txs@)[tx] == self.txs@[j as int].detail
                },
                None => !txs_map(self.txs@).dom().contains(tx),
            },
    {
        let mut j: usize = 0;
        while j < self.txs.len()
            invariant
                j <= self.txs@.len(),
                seq_tx_ids_distinct(self.txs@),
                forall|p: int| 0 <= p < j ==> (#[trigger] self.txs@[p]).tx != tx,
            decreases self.txs@.len() - j,
        {
            if self.txs[j].tx == tx {
                proof {
                    lemma_txs_map_get(self.txs@, j as int);
                }
                return Some(j);
            }
            j = j + 1;
        }
        proof {
            lemma_txs_map_absent(self.txs@, tx);
        }
        None
    }

    /// The stored record with the given transaction id, if this account owns
    /// one.
    pub fn find_transaction(&self, tx: u32) -> (r: Option<&TxRecord>)
        requires
            self.wf(),
        ensures
            match r {
                Some(rec) => {
                    &&& self@.txs.dom().contains(tx)
                    &&& rec.tx == tx
                    &&& rec.detail == self@.txs[tx]
                },
                None => !self@.txs.dom().contains(tx),
            },
    {
        match self.find_tx_idx(tx) {
            Some(j) => Some(&self.txs[j]),
            None => None,
        }
    }

    /// How many stored records this account owns.
    pub fn transaction_count(&self) -> (n: usize)
        ensures
            n == self.txs@.len(),
    {
        self.txs.len()
    }

    /// The derived total balance: available plus held, widened so that it
    /// always fits.
    pub fn total(&self) -> (t: i128)
        ensures
            t == self@.total(),
    {
        self.available as i128 + self.held as i128
    }
}

impl Engine {
    /// The position of the given client's account, if the ledger has one.
    fn find_account_idx(&self, client: u16) -> (r: Option<usize>)
        requires
            self.wf(),
        ensures
            match r {
                Some(i) => {
                    &&& i < self.accounts@.len()
                    &&& self.accounts@[i as int].client == client
                    &&& self@.dom().contains(client)
                    &&& self@[client] == self.accounts@[i as int]@
                },
                None => !self@.dom().contains(client),
            },
    {
        let mut i: usize = 0;
        while i < self.accounts.len()
            invariant
                i <= self.accounts@.len(),
                self.wf(),
                forall|p: int| 0 <= p < i ==> (#[trigger] self.accounts@[p]).client != client,
            decreases self.accounts@.len() - i,
        {
            if self.accounts[i].client == client {
                proof {
                    lemma_accounts_map_get(self.accounts@, i as int);
                }
                return Some(i);
            }
            i = i + 1;
        }
        proof {
            lemma_accounts_map_absent(self.accounts@, client);
        }
        None
    }

    /// Where a fresh account for the given client belongs, so that the
    /// accounts stay sorted by client id.
    fn find_insert_pos(&self, client: u16) -> (p: usize)
        requires
            self.wf(),
            !self@.dom().contains(client),
        ensures
            p <= self.accounts@.len(),
            forall|j: int| 0 <= j < p ==> (#[trigger] self.accounts@[j]).client < client,
            forall|j: int|
                p <= j < self.accounts@.len() ==> (#[trigger] self.accounts@[j]).client > client,
    {
        let mut p: usize = 0;
        while p < self.accounts.len()
            invariant
                p <= self.accounts@.len(),
                self.wf(),
                !self@.dom().contains(client),
                forall|j: int| 0 <= j < p ==> (#[trigger] self.accounts@[j]).client < client,
            decreases self.accounts@.len() - p,
        {
            if self.accounts[p].client >= client {
                proof {
                    lemma_accounts_map_get(self.accounts@, p as int);
                    assert(self.accounts@[p as int].client > client);
                }
                return p;
            }
            p = p + 1;
        }
        p
    }

    /// Find the given client's account, creating an empty one in sorted
    /// position if the ledger has none yet.
    fn materialize_account(&mut self, client: u16) -> (i: usize)
        requires
            old(self).wf(),
        ensures
            final(self).wf(),
            final(self)@ == materialize(old(self)@, client),
            i < final(self).accounts@.len(),
            final(self).accounts@[i as int].client == client,
            final(self)@[client] == final(self).accounts@[i as int]@,
    {
        match self.find_account_idx(client) {
            Some(i) => i,
            None => {
                let p = self.find_insert_pos(client);
                let fresh = Account {
                    client,
                    available: 0,
                    held: 0,
                    locked: false,
                    txs: Vec::new(),
                };
                proof {
                    assert forall|q: int|
                        0 <= q < self.accounts@.len() implies (#[trigger] self.accounts@[q]).client
                        != client by {
                        if self.accounts@[q].client == client {
                            lemma_accounts_map_get(self.accounts@, q);
                        }
                    }
                    lemma_accounts_map_insert(self.accounts@, p as int, fresh);
                    self.accounts@.insert_ensures(p as int, fresh);
                    assert(fresh@ == AccountModel::initial());
                }
                let ghost s0 = self.accounts@;
                self.accounts.insert(p, fresh);
                proof {
                    let s1 = self.accounts@;
                    assert forall|i: int, j: int| 0 <= i < j < s1.len() implies (
                    #[trigger] s1[i]).client < (#[trigger] s1[j]).client by {
                        if j < p {
                            assert(s1[i] == s0[i] && s1[j] == s0[j]);
                        } else if i < p && j == p {
                            assert(s1[i] == s0[i]);
                        } else if i < p {
                            assert(s1[i] == s0[i] && s1[j] == s0[j - 1]);
                        } else if i == p {
                            assert(s1[j] == s0[j - 1]);
                        } else {
                            assert(s1[i] == s0[i - 1] && s1[j] == s0[j - 1]);
                        }
                    }
                    assert forall|i: int| 0 <= i < s1.len() implies (#[trigger] s1[i]).wf() by {
                        if i < p {
                            assert(s1[i] == s0[i]);
                        } else if i == p {
                            assert(s1[i] == fresh);
                        } else {
                            assert(s1[i] == s0[i - 1]);
                        }
                    }
                    lemma_accounts_map_get(s1, p as int);
                }
                p
            },
        }
    }

    /// Take one account out, let the caller work on it, and relate the
    /// ledger after `restore_account` puts it back to the ledger before
    /// `take_account` removed it.
    fn take_account(&mut self, i: usize) -> (acct: Account)
        requires
            old(self).wf(),
            i < old(self).accounts@.len(),
        ensures
            acct == old(self).accounts@[i as int],
            acct.wf(),
            final(self).accounts@ == old(self).accounts@.remove(i as int),
    {
        self.accounts.remove(i)
    }

    /// Put a (possibly modified) account back at the position it was removed
    /// from. The caller must not have changed which client it belongs to.
    fn restore_account(&mut self, Ghost(s1): Ghost<Seq<Account>>, i: usize, acct: Account)
        requires
            seq_clients_sorted(s1),
            forall|j: int| 0 <= j < s1.len() ==> (#[trigger] s1[j]).wf(),
            i < s1.len(),
            old(self).accounts@ == s1.remove(i as int),
            acct.client == s1[i as int].client,
            acct.wf(),
        ensures
            final(self).wf(),
            final(self).accounts@ == s1.update(i as int, acct),
            final(self)@ == accounts_map(s1).insert(acct.client, acct@),
    {
        proof {
            assert(s1.remove(i as int).insert(i as int, acct) =~= s1.update(i as int, acct));
            let t = s1.update(i as int, acct);
            assert(seq_clients_sorted(t));
            assert forall|j: int| 0 <= j < t.len() implies (#[trigger] t[j]).wf() by {
                if j != i {
                    assert(t[j] == s1[j]);
                }
            }
            lemma_accounts_map_update(s1, i as int, acct);
        }
        self.accounts.insert(i, acct);
    }

    /// Apply a deposit: add the amount to the available balance and store a
    /// deposit record in Normal state. A deposit naming an unseen client
    /// creates that client's account, even when the deposit itself is then
    /// rejected.
    pub fn deposit(&mut self, client: u16, tx: u32, amount: i64)
        requires
            old(self).wf(),
        ensures
            final(self).wf(),
            final(self)@ == spec_deposit(old(self)@, client, tx, amount),
    {
        let idx = self.materialize_account(client);
        let ghost m1 = self@;
        let ghost s1 = self.accounts@;
        let mut acct = self.take_account(idx);
        let ghost a0 = acct;
        if !acct.locked && amount > 0 && acct.available <= i64::MAX - amount
            && acct.find_tx_idx(tx).is_none() {
            acct.available = acct.available + amount;
            let r = TxRecord {
                tx,
                detail: TxDetail::Deposit { amount, state: DisputeState::Normal },
            };
            proof {
                lemma_txs_map_push(acct.txs@, r);
                lemma_disputed_sum_push(acct.txs@, r);
                assert forall|p: int|
                    0 <= p < acct.txs@.len() implies (#[trigger] acct.txs@[p]).tx != tx by {
                    if acct.txs@[p].tx == tx {
                        lemma_txs_map_get(acct.txs@, p);
                    }
                }
                let t = acct.txs@.push(r);
                assert(seq_tx_ids_distinct(t)) by {
                    assert(forall|p: int| 0 <= p < t.len() - 1 ==> t[p] == acct.txs@[p]);
                }
                assert(seq_amounts_positive(t)) by {
                    assert(forall|p: int| 0 <= p < t.len() - 1 ==> t[p] == acct.txs@[p]);
                }
            }
            acct.txs.push(r);
        }
        proof {
            assert(acct.wf());
        }
        self.restore_account(Ghost(s1), idx, acct);
        proof {
            assert(m1 == materialize(old(self)@, client));
            if acct == a0 {
                assert(final(self)@ =~= m1);
            }
        }
    }

    /// Apply a withdrawal: subtract the amount from the available balance
    /// (held funds never count) and store a withdrawal record. Like a
    /// deposit, it creates an unseen client's account even when the
    /// withdrawal itself is then rejected.
    pub fn withdraw(&mut self, client: u16, tx: u32, amount: i64)
        requires
            old(self).wf(),
        ensures
            final(self).wf(),
            final(self)@ == spec_withdraw(old(self)@, client, tx, amount),
    {
        let idx = self.materialize_account(client);
        let ghost m1 = self@;
        let ghost s1 = self.accounts@;
        let mut acct = self.take_account(idx);
        let ghost a0 = acct;
        if !acct.locked && amount > 0 && acct.available >= amount
            && acct.find_tx_idx(tx).is_none() {
            acct.available = acct.available - amount;
            let r = TxRecord { tx, detail: TxDetail::Withdrawal { amount } };
            proof {
                lemma_txs_map_push(acct.txs@, r);
                lemma_disputed_sum_push(acct.txs@, r);
                assert forall|p: int|
                    0 <= p < acct.txs@.len() implies (#[trigger] acct.txs@[p]).tx != tx by {
                    if acct.txs@[p].tx == tx {
                        lemma_txs_map_get(acct.txs@, p);
                    }
                }
                let t = acct.txs@.push(r);
                assert(seq_tx_ids_distinct(t)) by {
                    assert(forall|p: int| 0 <= p < t.len() - 1 ==> t[p] == acct.txs@[p]);
                }
                assert(seq_amounts_positive(t)) by {
                    assert(forall|p: int| 0 <= p < t.len() - 1 ==> t[p] == acct.txs@[p]);
                }
            }
            acct.txs.push(r);
        }
        proof {
            assert(acct.wf());
        }
        self.restore_account(Ghost(s1), idx, acct);
        proof {
            assert(m1 == materialize(old(self)@, client));
            if acct == a0 {
                assert(final(self)@ =~= m1);
            }
        }
    }

    /// Apply a dispute: move the named deposit's amount from available to
    /// held and mark the record Disputed. Naming an unseen client, an
    /// unknown or withdrawn record, or a record not in Normal state is a
    /// silent no-op.
    pub fn dispute(&mut self, client: u16, tx: u32)
        requires
            old(self).wf(),
        ensures
            final(self).wf(),
            final(self)@ == spec_dispute(old(self)@, client, tx),
    {
        let idx = match self.find_account_idx(client) {
            Some(i) => i,
            None => {
                return ;
            },
        };
        let ghost s1 = self.accounts@;
        let mut acct = self.take_account(idx);
        let ghost a0 = acct;
        if !acct.locked {
            if let Some(j) = acct.find_tx_idx(tx) {
                if let TxDetail::Deposit { amount, state } = acct.txs[j].detail {
                    if state == DisputeState::Normal && acct.available >= i64::MIN + amount
                        && acct.held <= i64::MAX - amount {
                        acct.available = acct.available - amount;
                        acct.held = acct.held + amount;
                        let r = TxRecord {
                            tx,
                            detail: TxDetail::Deposit { amount, state: DisputeState::Disputed },
                        };
                        proof {
                            lemma_txs_map_update(acct.txs@, j as int, r);
                            lemma_disputed_sum_update(acct.txs@, j as int, r);
                            let t = acct.txs@.update(j as int, r);
                            assert(seq_tx_ids_distinct(t)) by {
                                assert(forall|p: int|
                                    0 <= p < t.len() && p != j ==> t[p] == acct.txs@[p]);
                            }
                            assert(seq_amounts_positive(t)) by {
                                assert(forall|p: int|
                                    0 <= p < t.len() && p != j ==> t[p] == acct.txs@[p]);
                            }
                        }
                        acct.txs.set(j, r);
                    }
                }
            }
        }
        proof {
            assert(acct.wf());
        }
        self.restore_account(Ghost(s1), idx, acct);
        proof {
            if acct == a0 {
                assert(final(self)@ =~= old(self)@);
            }
        }
    }

    /// Apply a resolve: release the named disputed deposit's amount from
    /// held back to available and mark the record Resolved. Naming an unseen
    /// client, an unknown or withdrawn record, or a record not in Disputed
    /// state is a silent no-op.
    pub fn resolve(&mut self, client: u16, tx: u32)
        requires
            old(self).wf(),
        ensures
            final(self).wf(),
            final(self)@ == spec_resolve(old(self)@, client, tx),
    {
        let idx = match self.find_account_idx(client) {
            Some(i) => i,
            None => {
                return ;
            },
        };
        let ghost s1 = self.accounts@;
        let mut acct = self.take_account(idx);
        let ghost a0 = acct;
        if !acct.locked {
            if let Some(j) = acct.find_tx_idx(tx) {
                if let TxDetail::Deposit { amount, state } = acct.txs[j].detail {
                    if state == DisputeState::Disputed && acct.available <= i64::MAX - amount {
                        proof {
                            lemma_disputed_sum_element(acct.txs@, j as int);
                        }
                        acct.available = acct.available + amount;
                        acct.held = acct.held - amount;
                        let r = TxRecord {
                            tx,
                            detail: TxDetail::Deposit { amount, state: DisputeState::Resolved },
                        };
                        proof {
                            lemma_txs_map_update(acct.txs@, j as int, r);
                            lemma_disputed_sum_update(acct.txs@, j as int, r);
                            let t = acct.txs@.update(j as int, r);
                            assert(seq_tx_ids_distinct(t)) by {
                                assert(forall|p: int|
                                    0 <= p < t.len() && p != j ==> t[p] == acct.txs@[p]);
                            }
                            assert(seq_amounts_positive(t)) by {
                                assert(forall|p: int|
                                    0 <= p < t.len() && p != j ==> t[p] == acct.txs@[p]);
                            }
                        }
                        acct.txs.set(j, r);
                    }
                }
            }
        }
        proof {
            assert(acct.wf());
        }
        self.restore_account(Ghost(s1), idx, acct);
        proof {
            if acct == a0 {
                assert(final(self)@ =~= old(self)@);
            }
        }
    }

    /// Apply a chargeback: withdraw the named disputed deposit's amount from
    /// held, mark the record ChargedBack, and lock the account permanently.
    /// Naming an unseen client, an unknown or withdrawn record, or a record
    /// not in Disputed state is a silent no-op.
    pub fn chargeback(&mut self, client: u16, tx: u32)
        requires
            old(self).wf(),
        ensures
            final(self).wf(),
            final(self)@ == spec_chargeback(old(self)@, client, tx),
    {
        let idx = match self.find_account_idx(client) {
            Some(i) => i,
            None => {
                return ;
            },
        };
        let ghost s1 = self.accounts@;
        let mut acct = self.take_account(idx);
        let ghost a0 = acct;
        if !acct.locked {
            if let Some(j) = acct.find_tx_idx(tx) {
                if let TxDetail::Deposit { amount, state } = acct.txs[j].detail {
                    if state == DisputeState::Disputed {
                        proof {
                            lemma_disputed_sum_element(acct.txs@, j as int);
                        }
                        acct.held = acct.held - amount;
                        acct.locked = true;
                        let r = TxRecord {
                            tx,
                            detail: TxDetail::Deposit { amount, state: DisputeState::ChargedBack },
                        };
                        proof {
                            lemma_txs_map_update(acct.txs@, j as int, r);
                            lemma_disputed_sum_update(acct.txs@, j as int, r);
                            let t = acct.txs@.update(j as int, r);
                            assert(seq_tx_ids_distinct(t)) by {
                                assert(forall|p: int|
                                    0 <= p < t.len() && p != j ==> t[p] == acct.txs@[p]);
                            }
                            assert(seq_amounts_positive(t)) by {
                                assert(forall|p: int|
                                    0 <= p < t.len() && p != j ==> t[p] == acct.txs@[p]);
                            }
                        }
                        acct.txs.set(j, r);
                    }
                }
            }
        }
        proof {
            assert(acct.wf());
        }
        self.restore_account(Ghost(s1), idx, acct);
        proof {
            if acct == a0 {
                assert(final(self)@ =~= old(self)@);
            }
        }
    }

    /// The given client's account, if the ledger has one.
    pub fn get_account(&self, client: u16) -> (r: Option<&Account>)
        requires
            self.wf(),
        ensures
            match r {
                Some(a) => {
                    &&& self@.dom().contains(client)
                    &&& a.client == client
                    &&& a.wf()
                    &&& a@ == self@[client]
                },
                None => !self@.dom().contains(client),
            },
    {
        match self.find_account_idx(client) {
            Some(i) => Some(&self.accounts[i]),
            None => None,
        }
    }

    /// How many clients the ledger has seen.
    pub fn account_count(&self) -> (n: usize)
        ensures
            n == self.accounts@.len(),
    {
        self.accounts.len()
    }

    /// Apply one normalized command to the ledger.
    pub fn process_record(&mut self, cmd: Command)
        requires
            old(self).wf(),
        ensures
            final(self).wf(),
            final(self)@ == spec_apply(old(self)@, cmd),
    {
        match cmd {
            Command::Deposit { client, tx, amount } => self.deposit(client, tx, amount),
            Command::Withdrawal { client, tx, amount } => self.withdraw(client, tx, amount),
            Command::Dispute { client, tx } => self.dispute(client, tx),
            Command::Resolve { client, tx } => self.resolve(client, tx),
            Command::Chargeback { client, tx } => self.chargeback(client, tx),
        }
    }
}

} // verus!
