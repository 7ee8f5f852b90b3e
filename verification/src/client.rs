//! Per-client balance state and its four guarded mutators.

use vstd::prelude::*;

verus! {

/// A rejection from one of the guarded balance mutators. Every rejection
/// leaves the account exactly as it was.
#[derive(Debug, Clone, Copy, PartialEq, Eq, Structural)]
pub enum Error {
    /// The account is permanently locked; it accepts no mutation.
    Locked(u16),
    /// The requested amount exceeds the relevant balance, which is carried
    /// along: the available balance for `rm` and `hold`, the held balance
    /// for `unhold`.
    InsufficientFunds(u16, u64),
    /// Accepting the amount would push the total past the largest
    /// representable balance.
    Overflow(u16),
}

/// One client's balance state. Amounts are integer minor units.
///
/// The invariant `wf` (total = available + held) is established by `new`
/// and preserved by every mutator.
#[derive(Debug, Clone, Copy, PartialEq, Eq, Structural)]
pub struct Client {
    pub id: u16,
    pub available: u64,
    pub held: u64,
    pub total: u64,
    pub locked: bool,
}

impl Client {
    /// Balance equation: the total is exactly available plus held funds.
    /// Non-negativity of both parts is carried by the unsigned field types.
    pub open spec fn wf(&self) -> bool {
        self.total == self.available + self.held
    }

    pub fn new(id: u16, available: u64) -> (c: Client)
        ensures
            c == (Client { id, available, held: 0u64, total: available, locked: false }),
            c.wf(),
    {
        Client { id, available, held: 0, total: available, locked: false }
    }

    pub fn id(&self) -> (r: u16)
        ensures
            r == self.id,
    {
        self.id
    }

    pub fn available(&self) -> (r: u64)
        ensures
            r == self.available,
    {
        self.available
    }

    pub fn held(&self) -> (r: u64)
        ensures
            r == self.held,
    {
        self.held
    }

    pub fn total(&self) -> (r: u64)
        ensures
            r == self.total,
    {
        self.total
    }

    /// Credit `amt` to the available funds (and hence to the total).
    pub fn add(&mut self, amt: u64) -> (r: Result<(), Error>)
        requires
            old(self).wf(),
        ensures
            final(self).wf(),
            old(self).locked ==> r == Err::<(), Error>(Error::Locked(old(self).id))
                && *final(self) == *old(self),
            !old(self).locked && old(self).total + amt > u64::MAX ==> r == Err::<(), Error>(
                Error::Overflow(old(self).id),
            ) && *final(self) == *old(self),
            !old(self).locked && old(self).total + amt <= u64::MAX ==> r == Ok::<(), Error>(())
                && *final(self) == (Client {
                available: (old(self).available + amt) as u64,
                total: (old(self).total + amt) as u64,
                ..*old(self)
            }),
    {
        if self.locked {
            return Err(Error::Locked(self.id));
        }
        if amt > u64::MAX - self.total {
            return Err(Error::Overflow(self.id));
        }
        self.available = self.available + amt;
        self.total = self.total + amt;
        Ok(())
    }

    /// Debit `amt` from the available funds (and hence from the total).
    pub fn rm(&mut self, amt: u64) -> (r: Result<(), Error>)
        requires
            old(self).wf(),
        ensures
            final(self).wf(),
            old(self).locked ==> r == Err::<(), Error>(Error::Locked(old(self).id))
                && *final(self) == *old(self),
            !old(self).locked && amt > old(self).available ==> r == Err::<(), Error>(
                Error::InsufficientFunds(old(self).id, old(self).available),
            ) && *final(self) == *old(self),
            !old(self).locked && amt <= old(self).available ==> r == Ok::<(), Error>(())
                && *final(self) == (Client {
                available: (old(self).available - amt) as u64,
                total: (old(self).total - amt) as u64,
                ..*old(self)
            }),
    {
        if self.locked {
            return Err(Error::Locked(self.id));
        }
        if amt > self.available {
            return Err(Error::InsufficientFunds(self.id, self.available));
        }
        self.available = self.available - amt;
        self.total = self.total - amt;
        Ok(())
    }

    /// Freeze `amt`: move it from available to held. The total is unchanged.
    pub fn hold(&mut self, amt: u64) -> (r: Result<(), Error>)
        requires
            old(self).wf(),
        ensures
            final(self).wf(),
            old(self).locked ==> r == Err::<(), Error>(Error::Locked(old(self).id))
                && *final(self) == *old(self),
            !old(self).locked && amt > old(self).available ==> r == Err::<(), Error>(
                Error::InsufficientFunds(old(self).id, old(self).available),
            ) && *final(self) == *old(self),
            !old(self).locked && amt <= old(self).available ==> r == Ok::<(), Error>(())
                && *final(self) == (Client {
                available: (old(self).available - amt) as u64,
                held: (old(self).held + amt) as u64,
                ..*old(self)
            }),
    {
        if self.locked {
            return Err(Error::Locked(self.id));
        }
        if amt > self.available {
            return Err(Error::InsufficientFunds(self.id, self.available));
        }
        self.available = self.available - amt;
        self.held = self.held + amt;
        Ok(())
    }

    /// Release `amt` of frozen funds back to available. The total is unchanged.
    pub fn unhold(&mut self, amt: u64) -> (r: Result<(), Error>)
        requires
            old(self).wf(),
        ensures
            final(self).wf(),
            old(self).locked ==> r == Err::<(), Error>(Error::Locked(old(self).id))
                && *final(self) == *old(self),
            !old(self).locked && amt > old(self).held ==> r == Err::<(), Error>(
                Error::InsufficientFunds(old(self).id, old(self).held),
            ) && *final(self) == *old(self),
            !old(self).locked && amt <= old(self).held ==> r == Ok::<(), Error>(())
                && *final(self) == (Client {
                available: (old(self).available + amt) as u64,
                held: (old(self).held - amt) as u64,
                ..*old(self)
            }),
    {
        if self.locked {
            return Err(Error::Locked(self.id));
        }
        if amt > self.held {
            return Err(Error::InsufficientFunds(self.id, self.held));
        }
        self.available = self.available + amt;
        self.held = self.held - amt;
        Ok(())
    }

    pub fn lock(&mut self)
        ensures
            *final(self) == (Client { locked: true, ..*old(self) }),
    {
        self.locked = true;
    }

    pub fn unlock(&mut self)
        ensures
            *final(self) == (Client { locked: false, ..*old(self) }),
    {
        self.locked = false;
    }

    pub fn is_locked(&self) -> (r: bool)
        ensures
            r == self.locked,
    {
        self.locked
    }
}

} // verus!
