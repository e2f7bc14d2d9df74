//! The guarantees the ledger gives across commands, stated over the
//! mathematical model and proved once and for all: a locked account is
//! frozen, replayed transaction ids change nothing, and a deposit record's
//! dispute state only ever moves forward.

use vstd::prelude::*;

use crate::ledger::AccountModel;
use crate::ledger::Command;
use crate::ledger::DisputeState;
use crate::ledger::Engine;
use crate::ledger::TxDetail;
use crate::ledger::spec_apply;
use crate::ledger::spec_chargeback;
use crate::ledger::spec_deposit;
use crate::ledger::spec_dispute;
use crate::ledger::spec_resolve;
use crate::ledger::spec_withdraw;

verus! {

/// The client a command names.
pub open spec fn command_client(cmd: Command) -> u16 {
    match cmd {
        Command::Deposit { client, .. } => client,
        Command::Withdrawal { client, .. } => client,
        Command::Dispute { client, .. } => client,
        Command::Resolve { client, .. } => client,
        Command::Chargeback { client, .. } => client,
    }
}

/// Every account of a well-formed ledger reports `total == available +
/// held`, and its held balance is never negative.
pub proof fn lemma_account_balances(e: Engine, client: u16)
    requires
        e.wf(),
        e@.dom().contains(client),
    ensures
        e@[client].total() == e@[client].available + e@[client].held,
        e@[client].held >= 0,
{
    crate::ledger::lemma_model_accounts_wf(e, client);
}

/// Once an account is locked, a command naming that client changes nothing
/// at all.
pub proof fn lemma_locked_client_command_is_noop(m: Map<u16, AccountModel>, cmd: Command)
    requires
        m.dom().contains(command_client(cmd)),
        m[command_client(cmd)].locked,
    ensures
        spec_apply(m, cmd) == m,
{
}

/// Once an account is locked, no subsequent command -- whatever client or
/// transaction it names -- changes any field of that client's account.
pub proof fn lemma_locked_account_unchanged(m: Map<u16, AccountModel>, cmd: Command, client: u16)
    requires
        m.dom().contains(client),
        m[client].locked,
    ensures
        spec_apply(m, cmd).dom().contains(client),
        spec_apply(m, cmd)[client] == m[client],
{
    if command_client(cmd) == client {
        lemma_locked_client_command_is_noop(m, cmd);
    }
}

/// Replaying a deposit or a withdrawal whose transaction id the client has
/// already used never changes anything.
pub proof fn lemma_duplicate_transaction_id_is_noop(
    m: Map<u16, AccountModel>,
    client: u16,
    tx: u32,
    amount: i64,
)
    requires
        m.dom().contains(client),
        m[client].txs.dom().contains(tx),
    ensures
        spec_deposit(m, client, tx, amount) == m,
        spec_withdraw(m, client, tx, amount) == m,
{
}

/// One permitted move of a stored record under a single command: it stays as
/// it is, or it is a deposit whose state steps `Normal -> Disputed` or
/// `Disputed -> (Resolved | ChargedBack)`, its amount untouched.
pub open spec fn dispute_step_allowed(before: TxDetail, after: TxDetail) -> bool {
    ||| after == before
    ||| match (before, after) {
        (
            TxDetail::Deposit { amount: a1, state: s1 },
            TxDetail::Deposit { amount: a2, state: s2 },
        ) => {
            &&& a1 == a2
            &&& {
                ||| (s1 == DisputeState::Normal && s2 == DisputeState::Disputed)
                ||| (s1 == DisputeState::Disputed && (s2 == DisputeState::Resolved || s2
                    == DisputeState::ChargedBack))
            }
        },
        _ => false,
    }
}

/// A stored record is never deleted, and no command moves its dispute state
/// except forward: `Normal -> Disputed -> (Resolved | ChargedBack)`.
pub proof fn lemma_dispute_state_monotonic(
    m: Map<u16, AccountModel>,
    cmd: Command,
    client: u16,
    tx: u32,
)
    requires
        m.dom().contains(client),
        m[client].txs.dom().contains(tx),
    ensures
        spec_apply(m, cmd).dom().contains(client),
        spec_apply(m, cmd)[client].txs.dom().contains(tx),
        dispute_step_allowed(m[client].txs[tx], spec_apply(m, cmd)[client].txs[tx]),
{
}

/// Attempting a dispute on a record that is not a deposit in Normal state,
/// or a resolve or chargeback on a record that is not a deposit in Disputed
/// state, is a silent no-op.
pub proof fn lemma_invalid_state_transition_is_noop(
    m: Map<u16, AccountModel>,
    client: u16,
    tx: u32,
)
    requires
        m.dom().contains(client),
        m[client].txs.dom().contains(tx),
    ensures
        !(m[client].txs[tx] matches TxDetail::Deposit { state: DisputeState::Normal, .. })
            ==> spec_dispute(m, client, tx) == m,
        !(m[client].txs[tx] matches TxDetail::Deposit { state: DisputeState::Disputed, .. }) ==> (
        spec_resolve(m, client, tx) == m && spec_chargeback(m, client, tx) == m),
{
}

} // verus!
