//! Command normalization: a raw input row (type tag as text, client id,
//! transaction id, optional amount) becomes a typed command, or is rejected.
//! Rejections are non-fatal: the caller skips the row and goes on.

use vstd::prelude::*;
use vstd::string::StrSliceExecFns;

use crate::ledger::Command;

verus! {

/// A raw input row, after the source adapter has parsed its fields into
/// plain values. The amount, where present, is in ten-thousandths.
pub struct RawRecord {
    pub tx_type: String,
    pub client: u16,
    pub tx: u32,
    pub amount: Option<i64>,
}

/// Why a raw row produced no command.
#[derive(Clone, Copy, Debug, PartialEq, Eq, Structural)]
pub enum RejectReason {
    /// The type tag is none of the five known spellings.
    UnknownType,
    /// A deposit or withdrawal row without an amount.
    MissingAmount,
}

/// The case-folded code of a character: an ASCII upper-case letter folds to
/// its lower-case counterpart, every other character stands for itself.
pub open spec fn lower_code(c: char) -> u32 {
    if 65 <= c as u32 <= 90 {
        (c as u32 + 32) as u32
    } else {
        c as u32
    }
}

/// Whether `s` spells `t` up to ASCII case (`t` being the exact lower-case
/// spelling).
pub open spec fn eq_ignore_ascii_case(s: Seq<char>, t: Seq<char>) -> bool {
    &&& s.len() == t.len()
    &&& forall|i: int| 0 <= i < s.len() ==> lower_code(#[trigger] s[i]) == t[i] as u32
}

/// What a raw row normalizes to: the type tag is matched ignoring ASCII
/// case; deposits and withdrawals need an amount; disputes, resolves and
/// chargebacks ignore any amount; anything else is rejected.
pub open spec fn spec_normalize(
    t: Seq<char>,
    client: u16,
    tx: u32,
    amount: Option<i64>,
) -> Result<Command, RejectReason> {
    if eq_ignore_ascii_case(t, "deposit"@) {
        match amount {
            Some(a) => Ok(Command::Deposit { client, tx, amount: a }),
            None => Err(RejectReason::MissingAmount),
        }
    } else if eq_ignore_ascii_case(t, "withdrawal"@) {
        match amount {
            Some(a) => Ok(Command::Withdrawal { client, tx, amount: a }),
            None => Err(RejectReason::MissingAmount),
        }
    } else if eq_ignore_ascii_case(t, "dispute"@) {
        Ok(Command::Dispute { client, tx })
    } else if eq_ignore_ascii_case(t, "resolve"@) {
        Ok(Command::Resolve { client, tx })
    } else if eq_ignore_ascii_case(t, "chargeback"@) {
        Ok(Command::Chargeback { client, tx })
    } else {
        Err(RejectReason::UnknownType)
    }
}

/// Compare a type tag against one known spelling, ignoring ASCII case.
fn tag_matches(s: &str, t: &str) -> (r: bool)
    ensures
        r == eq_ignore_ascii_case(s@, t@),
{
    let n = s.unicode_len();
    if n != t.unicode_len() {
        return false;
    }
    let mut i: usize = 0;
    while i < n
        invariant
            n == s@.len(),
            n == t@.len(),
            i <= n,
            forall|j: int| 0 <= j < i ==> lower_code(#[trigger] s@[j]) == t@[j] as u32,
        decreases n - i,
    {
        let a = s.get_char(i) as u32;
        let b = t.get_char(i) as u32;
        let al = if 65 <= a && a <= 90 {
            a + 32
        } else {
            a
        };
        if al != b {
            return false;
        }
        i = i + 1;
    }
    true
}

/// Normalize one raw row into a command, or reject it.
pub fn normalize(raw: &RawRecord) -> (r: Result<Command, RejectReason>)
    ensures
        r == spec_normalize(raw.tx_type@, raw.client, raw.tx, raw.amount),
{
    let t = raw.tx_type.as_str();
    if tag_matches(t, "deposit") {
        match raw.amount {
            Some(a) => Ok(Command::Deposit { client: raw.client, tx: raw.tx, amount: a }),
            None => Err(RejectReason::MissingAmount),
        }
    } else if tag_matches(t, "withdrawal") {
        match raw.amount {
            Some(a) => Ok(Command::Withdrawal { client: raw.client, tx: raw.tx, amount: a }),
            None => Err(RejectReason::MissingAmount),
        }
    } else if tag_matches(t, "dispute") {
        Ok(Command::Dispute { client: raw.client, tx: raw.tx })
    } else if tag_matches(t, "resolve") {
        Ok(Command::Resolve { client: raw.client, tx: raw.tx })
    } else if tag_matches(t, "chargeback") {
        Ok(Command::Chargeback { client: raw.client, tx: raw.tx })
    } else {
        Err(RejectReason::UnknownType)
    }
}

} // verus!
