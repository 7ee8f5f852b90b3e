//! Typed transaction records and the classification of raw input rows.

use vstd::prelude::*;
use vstd::string::StringExecFns;

verus! {

/// ASCII case folding for one character: 'A'..='Z' maps to 'a'..='z',
/// every other character is unchanged.
pub open spec fn lower_char(c: char) -> char {
    if 65 <= c as u32 && c as u32 <= 90 {
        ((c as u32) + 32) as char
    } else {
        c
    }
}

/// ASCII case folding of a whole character sequence.
pub open spec fn lower_seq(s: Seq<char>) -> Seq<char> {
    s.map_values(|c: char| lower_char(c))
}

/// Relies on str::to_ascii_lowercase: it returns the string with each
/// character in 'A'..='Z' replaced by the corresponding character in
/// 'a'..='z' and every other character unchanged.
#[verifier::external_body]
fn ascii_lower(s: &str) -> (r: String)
    ensures
        r@ == lower_seq(s@),
{
    s.to_ascii_lowercase()
}

/// A raw row whose `type` field has not been classified yet. The amount is
/// in integer minor units; rows without an amount carry zero.
#[derive(Debug, Clone)]
pub struct RawTransaction {
    pub ty: String,
    pub client: u16,
    pub tx: u32,
    pub amount: u64,
}

impl RawTransaction {
    /// The `type` field folded to lower case, so that classification is
    /// case-insensitive.
    pub fn ty(&self) -> (r: String)
        ensures
            r@ == lower_seq(self.ty@),
    {
        ascii_lower(self.ty.as_str())
    }
}

/// The rejection of a raw row whose `type` field matches none of the five
/// transaction kinds; carries the folded field.
#[derive(Debug, Clone, PartialEq)]
pub enum Error {
    InvalidTx(String),
}

/// One typed transaction record. `client` is the account the record names,
/// `tx` a globally unique transaction identifier. Deposits and withdrawals
/// carry an amount in integer minor units; the dispute-workflow records
/// refer to an earlier transaction by `tx` alone.
#[derive(Debug, Clone, Copy, PartialEq, Eq, Structural)]
pub enum Transaction {
    Deposit { client: u16, tx: u32, amount: u64 },
    Withdrawal { client: u16, tx: u32, amount: u64 },
    Dispute { client: u16, tx: u32 },
    Resolve { client: u16, tx: u32 },
    Chargeback { client: u16, tx: u32 },
}

impl Transaction {
    /// Classify a raw row by its `type` field, case-insensitively. A row
    /// matching none of the five kinds is rejected.
    pub fn try_from(rtx: RawTransaction) -> (r: Result<Transaction, Error>)
        ensures
            lower_seq(rtx.ty@) == "deposit"@ ==> r == Ok::<Transaction, Error>(
                Transaction::Deposit { client: rtx.client, tx: rtx.tx, amount: rtx.amount },
            ),
            lower_seq(rtx.ty@) == "withdrawal"@ ==> r == Ok::<Transaction, Error>(
                Transaction::Withdrawal { client: rtx.client, tx: rtx.tx, amount: rtx.amount },
            ),
            lower_seq(rtx.ty@) == "dispute"@ ==> r == Ok::<Transaction, Error>(
                Transaction::Dispute { client: rtx.client, tx: rtx.tx },
            ),
            lower_seq(rtx.ty@) == "resolve"@ ==> r == Ok::<Transaction, Error>(
                Transaction::Resolve { client: rtx.client, tx: rtx.tx },
            ),
            lower_seq(rtx.ty@) == "chargeback"@ ==> r == Ok::<Transaction, Error>(
                Transaction::Chargeback { client: rtx.client, tx: rtx.tx },
            ),
            lower_seq(rtx.ty@) != "deposit"@ && lower_seq(rtx.ty@) != "withdrawal"@ && lower_seq(
                rtx.ty@,
            ) != "dispute"@ && lower_seq(rtx.ty@) != "resolve"@ && lower_seq(rtx.ty@)
                != "chargeback"@ ==> (r matches Err(Error::InvalidTx(s)) && s@ == lower_seq(
                rtx.ty@,
            )),
    {
        proof {
            reveal_strlit("deposit");
            reveal_strlit("withdrawal");
            reveal_strlit("dispute");
            reveal_strlit("resolve");
            reveal_strlit("chargeback");
            assert("deposit"@[1] != "dispute"@[1]);
            assert("deposit"@[0] != "resolve"@[0]);
            assert("dispute"@[0] != "resolve"@[0]);
            assert("withdrawal"@[0] != "chargeback"@[0]);
            assert("deposit"@.len() != "withdrawal"@.len());
            assert("deposit"@.len() != "chargeback"@.len());
            assert("dispute"@.len() != "withdrawal"@.len());
            assert("dispute"@.len() != "chargeback"@.len());
            assert("resolve"@.len() != "withdrawal"@.len());
            assert("resolve"@.len() != "chargeback"@.len());
        }
        let t = rtx.ty();
        if t == String::from_str("deposit") {
            Ok(Transaction::Deposit { client: rtx.client, tx: rtx.tx, amount: rtx.amount })
        } else if t == String::from_str("withdrawal") {
            Ok(Transaction::Withdrawal { client: rtx.client, tx: rtx.tx, amount: rtx.amount })
        } else if t == String::from_str("dispute") {
            Ok(Transaction::Dispute { client: rtx.client, tx: rtx.tx })
        } else if t == String::from_str("resolve") {
            Ok(Transaction::Resolve { client: rtx.client, tx: rtx.tx })
        } else if t == String::from_str("chargeback") {
            Ok(Transaction::Chargeback { client: rtx.client, tx: rtx.tx })
        } else {
            Err(Error::InvalidTx(t))
        }
    }
}

} // verus!
