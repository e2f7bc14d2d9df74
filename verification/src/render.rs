//! Snapshot projection: balances in ten-thousandths are rendered as decimal
//! text with exactly four fractional digits, and the final accounts become
//! one output row per client, ascending by client id.

use vstd::prelude::*;

use crate::ledger::Account;
use crate::ledger::Engine;

verus! {

/// The decimal digits of `n`, most significant first, as ASCII bytes.
pub open spec fn spec_digits(n: nat) -> Seq<u8>
    decreases n,
{
    if n < 10 {
        seq![(48 + n) as u8]
    } else {
        spec_digits(n / 10).push((48 + n % 10) as u8)
    }
}

/// The four zero-padded fractional digits of `f` ten-thousandths, as ASCII
/// bytes (`f` below ten thousand).
pub open spec fn spec_frac4(f: nat) -> Seq<u8> {
    seq![
        (48 + f / 1000 % 10) as u8,
        (48 + f / 100 % 10) as u8,
        (48 + f / 10 % 10) as u8,
        (48 + f % 10) as u8,
    ]
}

/// The rendering of `v` ten-thousandths as decimal text with exactly four
/// fractional digits: an optional minus sign, the whole part without
/// leading zeros (a single zero for zero), a point, and four digits.
pub open spec fn spec_format_units(v: int) -> Seq<u8> {
    let mag = (if v < 0 { -v } else { v }) as nat;
    let sign: Seq<u8> = if v < 0 { seq![45u8] } else { Seq::empty() };
    sign + spec_digits(mag / 10000) + seq![46u8] + spec_frac4(mag % 10000)
}

/// The characters that a sequence of ASCII bytes decodes to.
pub open spec fn chars_of_ascii(s: Seq<u8>) -> Seq<char> {
    Seq::new(s.len(), |i: int| s[i] as char)
}

proof fn lemma_digits_are_ascii(n: nat)
    ensures
        forall|i: int| 0 <= i < spec_digits(n).len() ==> 48 <= #[trigger] spec_digits(n)[i] <= 57,
    decreases n,
{
    if n < 10 {
        assert(spec_digits(n)[0] == (48 + n) as u8);
    } else {
        lemma_digits_are_ascii(n / 10);
        assert(forall|i: int|
            0 <= i < spec_digits(n).len() - 1 ==> #[trigger] spec_digits(n)[i] == spec_digits(
                n / 10,
            )[i]);
        assert(spec_digits(n).last() == (48 + n % 10) as u8);
    }
}

proof fn lemma_format_units_is_ascii(v: int)
    ensures
        forall|i: int|
            0 <= i < spec_format_units(v).len() ==> #[trigger] spec_format_units(v)[i] < 128,
{
    let mag = (if v < 0 { -v } else { v }) as nat;
    lemma_digits_are_ascii(mag / 10000);
}

/// Relies on String::from_utf8: bytes below 128 are valid UTF-8 and decode
/// one byte to one character with the same code.
#[verifier::external_body]
fn ascii_to_string(bytes: Vec<u8>) -> (r: String)
    requires
        forall|i: int| 0 <= i < bytes@.len() ==> bytes@[i] < 128,
    ensures
        r@ == chars_of_ascii(bytes@),
{
    match String::from_utf8(bytes) {
        Ok(s) => s,
        Err(_) => String::new(),
    }
}

/// Append the decimal digits of `n`, most significant first.
fn push_digits(n: u128, out: &mut Vec<u8>)
    ensures
        final(out)@ == old(out)@ + spec_digits(n as nat),
    decreases n,
{
    if n < 10 {
        out.push(48 + (n as u8));
        proof {
            assert(final(out)@ =~= old(out)@ + spec_digits(n as nat));
        }
    } else {
        push_digits(n / 10, out);
        out.push(48 + ((n % 10) as u8));
        proof {
            assert(final(out)@ =~= old(out)@ + spec_digits(n as nat));
        }
    }
}

/// Render a balance in ten-thousandths as decimal text with exactly four
/// fractional digits (`12500` becomes `1.2500`, `-5` becomes `-0.0005`).
pub fn format_units(v: i128) -> (r: String)
    ensures
        r@ == chars_of_ascii(spec_format_units(v as int)),
{
    let mag: u128 = if v >= 0 {
        v as u128
    } else {
        (-(v + 1)) as u128 + 1
    };
    let mut out: Vec<u8> = Vec::new();
    if v < 0 {
        out.push(45);
    }
    push_digits(mag / 10000, &mut out);
    out.push(46);
    let f = mag % 10000;
    out.push(48 + ((f / 1000) as u8));
    out.push(48 + ((f / 100 % 10) as u8));
    out.push(48 + ((f / 10 % 10) as u8));
    out.push(48 + ((f % 10) as u8));
    proof {
        assert(mag == (if v < 0 { -(v as int) } else { v as int }));
        assert(out@ =~= spec_format_units(v as int));
        lemma_format_units_is_ascii(v as int);
    }
    ascii_to_string(out)
}

/// One output row of the final snapshot: the client id, the three balances
/// as rendered text, and the lock flag.
pub struct SnapshotRow {
    pub client: u16,
    pub available: String,
    pub held: String,
    pub total: String,
    pub locked: bool,
}

/// What a snapshot row must say about an account.
pub open spec fn row_matches(row: SnapshotRow, a: Account) -> bool {
    &&& row.client == a.client
    &&& row.available@ == chars_of_ascii(spec_format_units(a.available as int))
    &&& row.held@ == chars_of_ascii(spec_format_units(a.held as int))
    &&& row.total@ == chars_of_ascii(spec_format_units(a.available + a.held))
    &&& row.locked == a.locked
}

/// The accounts that appear in the snapshot, in ledger order: those with at
/// least one stored record. An account materialized by a rejected command
/// alone -- a client with no successful deposit -- never appears in output.
pub open spec fn visible_accounts(s: Seq<Account>) -> Seq<Account>
    decreases s.len(),
{
    if s.len() == 0 {
        Seq::empty()
    } else if s.last().txs@.len() > 0 {
        visible_accounts(s.drop_last()).push(s.last())
    } else {
        visible_accounts(s.drop_last())
    }
}

impl Engine {
    /// Project the final ledger into one row per client with at least one
    /// accepted transaction, in ascending order of client id, each balance
    /// rendered to exactly four fractional digits and the total derived as
    /// available plus held.
    pub fn snapshot_rows(&self) -> (rows: Vec<SnapshotRow>)
        requires
            self.wf(),
        ensures
            rows@.len() == visible_accounts(self.accounts@).len(),
            forall|i: int|
                0 <= i < rows@.len() ==> row_matches(
                    #[trigger] rows@[i],
                    visible_accounts(self.accounts@)[i],
                ),
            forall|i: int, j: int|
                0 <= i < j < rows@.len() ==> (#[trigger] rows@[i]).client < (
                #[trigger] rows@[j]).client,
    {
        let ghost s = self.accounts@;
        let mut rows: Vec<SnapshotRow> = Vec::new();
        let mut i: usize = 0;
        while i < self.accounts.len()
            invariant
                self.wf(),
                s == self.accounts@,
                i <= s.len(),
                rows@.len() == visible_accounts(s.take(i as int)).len(),
                forall|j: int|
                    0 <= j < rows@.len() ==> row_matches(
                        #[trigger] rows@[j],
                        visible_accounts(s.take(i as int))[j],
                    ),
                forall|p: int, q: int|
                    0 <= p < q < rows@.len() ==> (#[trigger] rows@[p]).client < (
                    #[trigger] rows@[q]).client,
                rows@.len() > 0 ==> exists|k: int|
                    0 <= k < i && rows@[rows@.len() - 1].client == (#[trigger] s[k]).client,
            decreases s.len() - i,
        {
            proof {
                assert(s.take(i + 1).drop_last() =~= s.take(i as int));
                assert(s.take(i + 1).last() == s[i as int]);
            }
            let a = &self.accounts[i];
            if a.transaction_count() > 0 {
                proof {
                    if rows@.len() > 0 {
                        let k = choose|k: int|
                            0 <= k < i && rows@[rows@.len() - 1].client == (#[trigger] s[k]).client;
                        assert(s[k].client < s[i as int].client);
                    }
                }
                let total: i128 = a.available as i128 + a.held as i128;
                rows.push(
                    SnapshotRow {
                        client: a.client,
                        available: format_units(a.available as i128),
                        held: format_units(a.held as i128),
                        total: format_units(total),
                        locked: a.locked,
                    },
                );
            }
            i = i + 1;
        }
        proof {
            assert(s.take(s.len() as int) =~= s);
        }
        rows
    }
}

} // verus!
