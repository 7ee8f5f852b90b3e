//! The ledger: all accounts (keyed by client id) and the recorded
//! deposit/withdrawal history (keyed by transaction id).
//!
//! Both tables are vectors with unique keys; their mathematical view is a
//! pair of maps. The central well-formedness condition ties the dispute
//! machinery to the balances: for every client, the amounts of its
//! currently disputed history entries sum to no more than its held funds.
//! That is what makes the fund movements of resolve and chargeback
//! structurally guaranteed to succeed.

use vstd::prelude::*;
use crate::client::Client;

verus! {

/// The dispute status of one recorded transaction. `Resolved` and
/// `ChargedBack` are terminal: no further dispute-workflow record may
/// touch the transaction.
#[derive(Debug, Clone, Copy, PartialEq, Eq, Structural)]
pub enum DisputeState {
    Undisputed,
    Disputed,
    Resolved,
    ChargedBack,
}

/// Which of the two disputable kinds a recorded transaction was.
#[derive(Debug, Clone, Copy, PartialEq, Eq, Structural)]
pub enum TxKind {
    Deposit,
    Withdrawal,
}

/// The recorded, disputable form of one accepted deposit or withdrawal.
#[derive(Debug, Clone, Copy, PartialEq, Eq, Structural)]
pub struct HistoryEntry {
    pub kind: TxKind,
    pub client: u16,
    pub tx: u32,
    pub amount: u64,
    pub state: DisputeState,
}

/// The accounts of a ledger as a map from client id to account state.
pub open spec fn accounts_map(s: Seq<Client>) -> Map<u16, Client>
    decreases s.len(),
{
    if s.len() == 0 {
        Map::empty()
    } else {
        accounts_map(s.drop_last()).insert(s.last().id, s.last())
    }
}

/// The history of a ledger as a map from transaction id to entry.
pub open spec fn history_map(s: Seq<HistoryEntry>) -> Map<u32, HistoryEntry>
    decreases s.len(),
{
    if s.len() == 0 {
        Map::empty()
    } else {
        history_map(s.drop_last()).insert(s.last().tx, s.last())
    }
}

/// No two accounts share a client id.
pub open spec fn unique_ids(s: Seq<Client>) -> bool {
    forall|i: int, j: int| 0 <= i < j < s.len() ==> s[i].id != s[j].id
}

/// No two history entries share a transaction id.
pub open spec fn unique_txs(s: Seq<HistoryEntry>) -> bool {
    forall|i: int, j: int| 0 <= i < j < s.len() ==> s[i].tx != s[j].tx
}

/// How much one entry contributes to the frozen funds of client `c`.
pub open spec fn entry_hold(e: HistoryEntry, c: u16) -> int {
    if e.client == c && e.state is Disputed {
        e.amount as int
    } else {
        0
    }
}

/// The amounts of the currently disputed entries owned by client `c`,
/// summed.
pub open spec fn disputed_sum(h: Seq<HistoryEntry>, c: u16) -> int
    decreases h.len(),
{
    if h.len() == 0 {
        0
    } else {
        disputed_sum(h.drop_last(), c) + entry_hold(h.last(), c)
    }
}

/// The held funds of client `c`, zero when no such account exists.
pub open spec fn held_of(m: Map<u16, Client>, c: u16) -> int {
    if m.contains_key(c) {
        m[c].held as int
    } else {
        0
    }
}

pub proof fn lemma_accounts_map_index(s: Seq<Client>, i: int)
    requires
        unique_ids(s),
        0 <= i < s.len(),
    ensures
        accounts_map(s).contains_key(s[i].id),
        accounts_map(s)[s[i].id] == s[i],
    decreases s.len(),
{
    if i < s.len() - 1 {
        assert(unique_ids(s.drop_last()));
        lemma_accounts_map_index(s.drop_last(), i);
        assert(s.drop_last()[i] == s[i]);
        assert(s[i].id != s.last().id);
    }
}

pub proof fn lemma_accounts_map_absent(s: Seq<Client>, c: u16)
    requires
        forall|i: int| 0 <= i < s.len() ==> s[i].id != c,
    ensures
        !accounts_map(s).contains_key(c),
    decreases s.len(),
{
    if s.len() > 0 {
        lemma_accounts_map_absent(s.drop_last(), c);
    }
}

pub proof fn lemma_accounts_map_push(s: Seq<Client>, x: Client)
    ensures
        accounts_map(s.push(x)) == accounts_map(s).insert(x.id, x),
{
    assert(s.push(x).drop_last() =~= s);
    assert(s.push(x).last() == x);
}

pub proof fn lemma_accounts_map_update(s: Seq<Client>, i: int, x: Client)
    requires
        unique_ids(s),
        0 <= i < s.len(),
        x.id == s[i].id,
    ensures
        accounts_map(s.update(i, x)) == accounts_map(s).insert(x.id, x),
    decreases s.len(),
{
    if i == s.len() - 1 {
        assert(s.update(i, x).drop_last() =~= s.drop_last());
        assert(s.update(i, x).last() == x);
        assert(accounts_map(s.update(i, x)) =~= accounts_map(s).insert(x.id, x));
    } else {
        assert(s.update(i, x).drop_last() =~= s.drop_last().update(i, x));
        assert(s.update(i, x).last() == s.last());
        assert(unique_ids(s.drop_last()));
        assert(s.drop_last()[i] == s[i]);
        lemma_accounts_map_update(s.drop_last(), i, x);
        assert(x.id != s.last().id);
        assert(accounts_map(s.update(i, x)) =~= accounts_map(s).insert(x.id, x));
    }
}

pub proof fn lemma_history_map_index(s: Seq<HistoryEntry>, i: int)
    requires
        unique_txs(s),
        0 <= i < s.len(),
    ensures
        history_map(s).contains_key(s[i].tx),
        history_map(s)[s[i].tx] == s[i],
    decreases s.len(),
{
    if i < s.len() - 1 {
        assert(unique_txs(s.drop_last()));
        lemma_history_map_index(s.drop_last(), i);
        assert(s.drop_last()[i] == s[i]);
        assert(s[i].tx != s.last().tx);
    }
}

pub proof fn lemma_history_map_absent(s: Seq<HistoryEntry>, tx: u32)
    requires
        forall|i: int| 0 <= i < s.len() ==> s[i].tx != tx,
    ensures
        !history_map(s).contains_key(tx),
    decreases s.len(),
{
    if s.len() > 0 {
        lemma_history_map_absent(s.drop_last(), tx);
    }
}

pub proof fn lemma_history_map_push(s: Seq<HistoryEntry>, x: HistoryEntry)
    ensures
        history_map(s.push(x)) == history_map(s).insert(x.tx, x),
{
    assert(s.push(x).drop_last() =~= s);
    assert(s.push(x).last() == x);
}

pub proof fn lemma_history_map_update(s: Seq<HistoryEntry>, i: int, x: HistoryEntry)
    requires
        unique_txs(s),
        0 <= i < s.len(),
        x.tx == s[i].tx,
    ensures
        history_map(s.update(i, x)) == history_map(s).insert(x.tx, x),
    decreases s.len(),
{
    if i == s.len() - 1 {
        assert(s.update(i, x).drop_last() =~= s.drop_last());
        assert(s.update(i, x).last() == x);
        assert(history_map(s.update(i, x)) =~= history_map(s).insert(x.tx, x));
    } else {
        assert(s.update(i, x).drop_last() =~= s.drop_last().update(i, x));
        assert(s.update(i, x).last() == s.last());
        assert(unique_txs(s.drop_last()));
        assert(s.drop_last()[i] == s[i]);
        lemma_history_map_update(s.drop_last(), i, x);
        assert(x.tx != s.last().tx);
        assert(history_map(s.update(i, x)) =~= history_map(s).insert(x.tx, x));
    }
}

pub proof fn lemma_disputed_sum_nonneg(h: Seq<HistoryEntry>, c: u16)
    ensures
        disputed_sum(h, c) >= 0,
    decreases h.len(),
{
    if h.len() > 0 {
        lemma_disputed_sum_nonneg(h.drop_last(), c);
    }
}

pub proof fn lemma_disputed_sum_push(h: Seq<HistoryEntry>, e: HistoryEntry, c: u16)
    ensures
        disputed_sum(h.push(e), c) == disputed_sum(h, c) + entry_hold(e, c),
{
    assert(h.push(e).drop_last() =~= h);
    assert(h.push(e).last() == e);
}

pub proof fn lemma_disputed_sum_update(h: Seq<HistoryEntry>, i: int, e: HistoryEntry, c: u16)
    requires
        0 <= i < h.len(),
    ensures
        disputed_sum(h.update(i, e), c) == disputed_sum(h, c) - entry_hold(h[i], c) + entry_hold(
            e,
            c,
        ),
    decreases h.len(),
{
    if i == h.len() - 1 {
        assert(h.update(i, e).drop_last() =~= h.drop_last());
        assert(h.update(i, e).last() == e);
    } else {
        assert(h.update(i, e).drop_last() =~= h.drop_last().update(i, e));
        assert(h.update(i, e).last() == h.last());
        assert(h.drop_last()[i] == h[i]);
        lemma_disputed_sum_update(h.drop_last(), i, e, c);
    }
}

/// A disputed entry never claims more than the whole disputed sum of its
/// client.
pub proof fn lemma_disputed_sum_lower(h: Seq<HistoryEntry>, i: int)
    requires
        0 <= i < h.len(),
        h[i].state is Disputed,
    ensures
        disputed_sum(h, h[i].client) >= h[i].amount,
    decreases h.len(),
{
    if i == h.len() - 1 {
        lemma_disputed_sum_nonneg(h.drop_last(), h[i].client);
    } else {
        assert(h.drop_last()[i] == h[i]);
        lemma_disputed_sum_lower(h.drop_last(), i);
        assert(entry_hold(h.last(), h[i].client) >= 0);
    }
}

/// Law: every account of a well-formed ledger satisfies the balance
/// equation. Non-negativity of both parts is carried by the unsigned
/// field types.
pub proof fn lemma_wf_balance_equation(l: Ledger, c: u16)
    requires
        l.wf(),
        l@.accounts.contains_key(c),
    ensures
        l@.accounts[c].total == l@.accounts[c].available + l@.accounts[c].held,
{
    let s = l.accounts@;
    if forall|i: int| 0 <= i < s.len() ==> s[i].id != c {
        lemma_accounts_map_absent(s, c);
    } else {
        let i = choose|i: int| 0 <= i < s.len() && s[i].id == c;
        lemma_accounts_map_index(s, i);
    }
}

/// The mathematical view of a ledger: its two tables as maps.
#[verifier::ext_equal]
pub struct LedgerSnap {
    pub accounts: Map<u16, Client>,
    pub history: Map<u32, HistoryEntry>,
}

/// The ledger owns every account and every recorded transaction.
#[derive(Debug)]
pub struct Ledger {
    pub accounts: Vec<Client>,
    pub history: Vec<HistoryEntry>,
}

impl View for Ledger {
    type V = LedgerSnap;

    open spec fn view(&self) -> LedgerSnap {
        LedgerSnap {
            accounts: accounts_map(self.accounts@),
            history: history_map(self.history@),
        }
    }
}

impl Ledger {
    /// Well-formedness: unique keys in both tables, every account satisfies
    /// its balance equation, and for every client the disputed amounts sum
    /// to no more than the client's held funds.
    pub open spec fn wf(&self) -> bool {
        &&& unique_ids(self.accounts@)
        &&& unique_txs(self.history@)
        &&& forall|i: int|
            0 <= i < self.accounts@.len() ==> (#[trigger] self.accounts@[i]).wf()
        &&& forall|c: u16|
            #[trigger] disputed_sum(self.history@, c) <= held_of(
                accounts_map(self.accounts@),
                c,
            )
    }

    pub fn new() -> (l: Ledger)
        ensures
            l.wf(),
            l.accounts@.len() == 0,
            l.history@.len() == 0,
            l@.accounts == Map::<u16, Client>::empty(),
            l@.history == Map::<u32, HistoryEntry>::empty(),
    {
        let l = Ledger { accounts: Vec::new(), history: Vec::new() };
        proof {
            assert forall|c: u16| #[trigger] disputed_sum(l.history@, c) <= held_of(
                accounts_map(l.accounts@),
                c,
            ) by {
                lemma_accounts_map_absent(l.accounts@, c);
            }
        }
        l
    }

    /// The index of the account of `client`, when one exists.
    pub(crate) fn find_account(&self, client: u16) -> (r: Option<usize>)
        ensures
            match r {
                Some(i) => i < self.accounts@.len() && self.accounts@[i as int].id == client,
                None => forall|i: int|
                    0 <= i < self.accounts@.len() ==> self.accounts@[i].id != client,
            },
    {
        let mut i: usize = 0;
        while i < self.accounts.len()
            invariant
                i <= self.accounts@.len(),
                forall|j: int| 0 <= j < i ==> self.accounts@[j].id != client,
            decreases self.accounts@.len() - i,
        {
            if self.accounts[i].id == client {
                return Some(i);
            }
            i = i + 1;
        }
        None
    }

    /// The index of the history entry of `tx`, when one exists.
    pub(crate) fn find_history(&self, tx: u32) -> (r: Option<usize>)
        ensures
            match r {
                Some(i) => i < self.history@.len() && self.history@[i as int].tx == tx,
                None => forall|i: int|
                    0 <= i < self.history@.len() ==> self.history@[i].tx != tx,
            },
    {
        let mut i: usize = 0;
        while i < self.history.len()
            invariant
                i <= self.history@.len(),
                forall|j: int| 0 <= j < i ==> self.history@[j].tx != tx,
            decreases self.history@.len() - i,
        {
            if self.history[i].tx == tx {
                return Some(i);
            }
            i = i + 1;
        }
        None
    }

    /// The index of the existing account of `client`, or of a freshly
    /// created zero-balance account for it. Never fails.
    pub fn account_for(&mut self, client: u16) -> (i: usize)
        requires
            old(self).wf(),
        ensures
            final(self).wf(),
            final(self).history@ == old(self).history@,
            i < final(self).accounts@.len(),
            final(self).accounts@[i as int].id == client,
            old(self)@.accounts.contains_key(client) ==> final(self).accounts@ == old(
                self,
            ).accounts@ && final(self).accounts@[i as int] == old(self)@.accounts[client],
            !old(self)@.accounts.contains_key(client) ==> final(self).accounts@ == old(
                self,
            ).accounts@.push(
                Client { id: client, available: 0u64, held: 0u64, total: 0u64, locked: false },
            ),
            final(self)@.accounts == old(self)@.accounts.insert(
                client,
                final(self).accounts@[i as int],
            ),
    {
        match self.find_account(client) {
            Some(i) => {
                proof {
                    lemma_accounts_map_index(self.accounts@, i as int);
                    assert(self@.accounts =~= self@.accounts.insert(
                        client,
                        self.accounts@[i as int],
                    ));
                }
                i
            },
            None => {
                let fresh = Client::new(client, 0);
                let i = self.accounts.len();
                proof {
                    lemma_accounts_map_absent(self.accounts@, client);
                    lemma_accounts_map_push(self.accounts@, fresh);
                    let s2 = self.accounts@.push(fresh);
                    assert(unique_ids(s2)) by {
                        assert(forall|j: int|
                            0 <= j < self.accounts@.len() ==> s2[j] == self.accounts@[j]);
                    }
                    assert forall|c: u16| #[trigger] disputed_sum(self.history@, c) <= held_of(
                        accounts_map(s2),
                        c,
                    ) by {
                        if c != client {
                            assert(held_of(accounts_map(s2), c) == held_of(
                                accounts_map(self.accounts@),
                                c,
                            ));
                        } else {
                            lemma_disputed_sum_nonneg(self.history@, c);
                            assert(disputed_sum(self.history@, c) <= 0);
                        }
                    }
                }
                self.accounts.push(fresh);
                i
            },
        }
    }

    /// The recorded entry of transaction `tx`, when one exists.
    pub fn history_get(&self, tx: u32) -> (r: Option<HistoryEntry>)
        requires
            self.wf(),
        ensures
            self@.history.contains_key(tx) ==> r == Some(self@.history[tx]),
            !self@.history.contains_key(tx) ==> r == None::<HistoryEntry>,
    {
        match self.find_history(tx) {
            Some(i) => {
                proof {
                    lemma_history_map_index(self.history@, i as int);
                }
                Some(self.history[i])
            },
            None => {
                proof {
                    lemma_history_map_absent(self.history@, tx);
                }
                None
            },
        }
    }

    /// The accounts as one vector in ascending client-id order: the
    /// deterministic end-of-batch snapshot. It holds exactly the ledger's
    /// accounts, each exactly once.
    pub fn snapshot(&self) -> (v: Vec<Client>)
        ensures
            v@.to_multiset() == self.accounts@.to_multiset(),
            forall|p: int, q: int| 0 <= p < q < v@.len() ==> v@[p].id <= v@[q].id,
    {
        let mut work: Vec<Client> = Vec::new();
        let mut i: usize = 0;
        while i < self.accounts.len()
            invariant
                i <= self.accounts@.len(),
                work@ == self.accounts@.take(i as int),
            decreases self.accounts@.len() - i,
        {
            work.push(self.accounts[i]);
            proof {
                assert(self.accounts@.take(i as int).push(self.accounts@[i as int])
                    =~= self.accounts@.take(i as int + 1));
            }
            i = i + 1;
        }
        proof {
            broadcast use vstd::seq_lib::group_to_multiset_ensures;

            assert(self.accounts@.take(self.accounts@.len() as int) =~= self.accounts@);
            assert(work@.to_multiset() == self.accounts@.to_multiset());
        }
        let mut out: Vec<Client> = Vec::new();
        while work.len() > 0
            invariant
                out@.to_multiset().add(work@.to_multiset()) == self.accounts@.to_multiset(),
                forall|p: int, q: int| 0 <= p < q < out@.len() ==> out@[p].id <= out@[q].id,
                forall|p: int, q: int|
                    0 <= p < out@.len() && 0 <= q < work@.len() ==> out@[p].id <= work@[q].id,
            decreases work@.len(),
        {
            let mut m: usize = 0;
            let mut k: usize = 1;
            while k < work.len()
                invariant
                    m < k <= work@.len(),
                    m < work@.len(),
                    forall|j: int| 0 <= j < k ==> work@[m as int].id <= work@[j].id,
                decreases work@.len() - k,
            {
                if work[k].id < work[m].id {
                    m = k;
                }
                k = k + 1;
            }
            let ghost w0 = work@;
            let ghost o0 = out@;
            let x = work.remove(m);
            out.push(x);
            proof {
                broadcast use vstd::seq_lib::group_to_multiset_ensures;

                assert(w0.contains(x));
                assert(work@.to_multiset() == w0.to_multiset().remove(x));
                assert(out@.to_multiset() == o0.to_multiset().insert(x));
                assert(out@.to_multiset().add(work@.to_multiset()) =~= self.accounts@
                    .to_multiset());
                assert(forall|q: int|
                    0 <= q < work@.len() ==> work@[q] == w0[q] || work@[q] == w0[q + 1]);
            }
        }
        proof {
            broadcast use vstd::seq_lib::group_to_multiset_ensures;

            vstd::multiset::lemma_multiset_empty_len(work@.to_multiset());
            assert(out@.to_multiset().add(work@.to_multiset()) =~= out@.to_multiset());
        }
        out
    }

    /// Record a fresh entry, keyed by its transaction id. An id that is
    /// already taken leaves the history exactly as it was and reports
    /// `false`: the first entry is never overwritten.
    pub fn history_record(&mut self, entry: HistoryEntry) -> (r: bool)
        requires
            old(self).wf(),
            !(entry.state is Disputed),
        ensures
            final(self).wf(),
            final(self).accounts@ == old(self).accounts@,
            old(self)@.history.contains_key(entry.tx) ==> r == false && final(self).history@
                == old(self).history@,
            !old(self)@.history.contains_key(entry.tx) ==> r == true && final(self).history@ == old(
                self,
            ).history@.push(entry) && final(self)@.history == old(self)@.history.insert(
                entry.tx,
                entry,
            ),
    {
        match self.find_history(entry.tx) {
            Some(i) => {
                proof {
                    lemma_history_map_index(self.history@, i as int);
                }
                false
            },
            None => {
                proof {
                    lemma_history_map_absent(self.history@, entry.tx);
                    lemma_history_map_push(self.history@, entry);
                    let h2 = self.history@.push(entry);
                    assert(unique_txs(h2)) by {
                        assert(forall|j: int|
                            0 <= j < self.history@.len() ==> h2[j] == self.history@[j]);
                    }
                    assert forall|c: u16| #[trigger] disputed_sum(h2, c) <= held_of(
                        accounts_map(self.accounts@),
                        c,
                    ) by {
                        lemma_disputed_sum_push(self.history@, entry, c);
                        assert(entry_hold(entry, c) == 0);
                    }
                }
                self.history.push(entry);
                true
            },
        }
    }
}

} // verus!
