use vstd::prelude::*;

use crate::errors::BookError;

verus! {

/// The two currencies the venue settles: the quote currency USD at the
/// price scale, the base currency BTC at the quantity scale.
#[derive(Debug, Clone, Copy, PartialEq, Eq, Structural)]
pub enum Currency {
    Usd,
    Btc,
}

impl Currency {
    /// The other currency of the pair.
    pub open spec fn spec_other(self) -> Currency {
        match self {
            Currency::Usd => Currency::Btc,
            Currency::Btc => Currency::Usd,
        }
    }

    /// The parse of a currency code, as a value: exactly "USD" and "BTC"
    /// are valid.
    pub open spec fn from_code_spec(code: Seq<char>) -> Option<Currency> {
        if code == "USD"@ {
            Some(Currency::Usd)
        } else if code == "BTC"@ {
            Some(Currency::Btc)
        } else {
            None
        }
    }

    /// Parse a currency code; exactly "USD" and "BTC" are valid.
    pub fn from_code(code: &String) -> (r: Option<Currency>)
        ensures
            r == Self::from_code_spec(code@),
            code@ == "USD"@ ==> r == Some(Currency::Usd),
            code@ == "BTC"@ ==> r == Some(Currency::Btc),
            code@ != "USD"@ && code@ != "BTC"@ ==> r is None,
    {
        proof {
            reveal_strlit("USD");
            reveal_strlit("BTC");
            assert("USD"@.len() == 3 && "BTC"@.len() == 3);
            assert("USD"@[0] == 'U' && "BTC"@[0] == 'B');
            assert("USD"@ != "BTC"@);
        }
        let usd: String = "USD".to_owned();
        let btc: String = "BTC".to_owned();
        if *code == usd {
            Some(Currency::Usd)
        } else if *code == btc {
            Some(Currency::Btc)
        } else {
            None
        }
    }

    /// The currency's code, as the wire format spells it.
    pub fn code(&self) -> (r: String)
        ensures
            self is Usd ==> r@ == "USD"@,
            self is Btc ==> r@ == "BTC"@,
    {
        match self {
            Currency::Usd => "USD".to_owned(),
            Currency::Btc => "BTC".to_owned(),
        }
    }
}

/// One user's holdings in both currencies, split into the freely available
/// part and the part locked behind open-order reservations. Amounts are
/// unsigned fixed-point integers, so no balance is ever negative.
#[derive(Debug, Clone, Copy, PartialEq, Eq, Structural)]
pub struct UserBalance {
    pub user_id: u128,
    pub usd_available: u64,
    pub usd_locked: u64,
    pub btc_available: u64,
    pub btc_locked: u64,
}

impl UserBalance {
    /// The freely available amount of a currency.
    pub open spec fn spec_available(self, c: Currency) -> u64 {
        match c {
            Currency::Usd => self.usd_available,
            Currency::Btc => self.btc_available,
        }
    }

    /// The amount of a currency locked behind reservations.
    pub open spec fn spec_locked(self, c: Currency) -> u64 {
        match c {
            Currency::Usd => self.usd_locked,
            Currency::Btc => self.btc_locked,
        }
    }

    /// This user's whole holding of a currency, available plus locked.
    pub open spec fn spec_total(self, c: Currency) -> int {
        self.spec_available(c) + self.spec_locked(c)
    }

    /// A fresh account, as a value: zero in both currencies.
    pub open spec fn new_spec(user_id: u128) -> UserBalance {
        UserBalance { user_id, usd_available: 0, usd_locked: 0, btc_available: 0, btc_locked: 0 }
    }

    /// A fresh account: zero in both currencies.
    pub fn new(user_id: u128) -> (b: UserBalance)
        ensures
            b == Self::new_spec(user_id),
            b.user_id == user_id,
            b.usd_available == 0,
            b.usd_locked == 0,
            b.btc_available == 0,
            b.btc_locked == 0,
    {
        UserBalance {
            user_id,
            usd_available: 0,
            usd_locked: 0,
            btc_available: 0,
            btc_locked: 0,
        }
    }

    /// The freely available amount of a currency.
    pub fn get_balance(&self, c: Currency) -> (r: u64)
        ensures
            r == self.spec_available(c),
    {
        match c {
            Currency::Usd => self.usd_available,
            Currency::Btc => self.btc_available,
        }
    }

    /// The locked amount of a currency.
    pub fn get_locked(&self, c: Currency) -> (r: u64)
        ensures
            r == self.spec_locked(c),
    {
        match c {
            Currency::Usd => self.usd_locked,
            Currency::Btc => self.btc_locked,
        }
    }

    /// Credit the available bucket; the caller rules overflow out.
    pub fn add_balance(&mut self, c: Currency, amount: u64)
        requires
            old(self).spec_available(c) + amount <= u64::MAX,
        ensures
            final(self).spec_available(c) == old(self).spec_available(c) + amount,
            final(self).spec_locked(c) == old(self).spec_locked(c),
            final(self).spec_available(c.spec_other()) == old(self).spec_available(c.spec_other()),
            final(self).spec_locked(c.spec_other()) == old(self).spec_locked(c.spec_other()),
            final(self).user_id == old(self).user_id,
    {
        match c {
            Currency::Usd => {
                self.usd_available = self.usd_available + amount;
            },
            Currency::Btc => {
                self.btc_available = self.btc_available + amount;
            },
        }
    }

    /// Debit the available bucket, failing if and only if less than
    /// `amount` is available; on failure nothing changes.
    pub fn subtract_balance(&mut self, c: Currency, amount: u64) -> (r: Result<(), BookError>)
        ensures
            amount <= old(self).spec_available(c) ==> {
                &&& r is Ok
                &&& final(self).spec_available(c) == old(self).spec_available(c) - amount
                &&& final(self).spec_locked(c) == old(self).spec_locked(c)
                &&& final(self).spec_available(c.spec_other()) == old(self).spec_available(
                    c.spec_other(),
                )
                &&& final(self).spec_locked(c.spec_other()) == old(self).spec_locked(
                    c.spec_other(),
                )
                &&& final(self).user_id == old(self).user_id
            },
            amount > old(self).spec_available(c) ==> r == Err::<(), BookError>(
                BookError::InsufficientBalance,
            ) && *final(self) == *old(self),
    {
        match c {
            Currency::Usd => {
                if amount <= self.usd_available {
                    self.usd_available = self.usd_available - amount;
                    Ok(())
                } else {
                    Err(BookError::InsufficientBalance)
                }
            },
            Currency::Btc => {
                if amount <= self.btc_available {
                    self.btc_available = self.btc_available - amount;
                    Ok(())
                } else {
                    Err(BookError::InsufficientBalance)
                }
            },
        }
    }

    /// Move `amount` from available to locked, failing if and only if less
    /// than `amount` is available; on failure nothing changes. The user's
    /// total in the currency never changes.
    pub fn lock(&mut self, c: Currency, amount: u64) -> (r: Result<(), BookError>)
        requires
            old(self).spec_total(c) <= u64::MAX,
        ensures
            amount <= old(self).spec_available(c) ==> {
                &&& r is Ok
                &&& final(self).spec_available(c) == old(self).spec_available(c) - amount
                &&& final(self).spec_locked(c) == old(self).spec_locked(c) + amount
            },
            amount > old(self).spec_available(c) ==> r == Err::<(), BookError>(
                BookError::InsufficientBalance,
            ) && *final(self) == *old(self),
            final(self).spec_total(c) == old(self).spec_total(c),
            final(self).spec_available(c.spec_other()) == old(self).spec_available(c.spec_other()),
            final(self).spec_locked(c.spec_other()) == old(self).spec_locked(c.spec_other()),
            final(self).user_id == old(self).user_id,
    {
        match c {
            Currency::Usd => {
                if amount <= self.usd_available {
                    self.usd_available = self.usd_available - amount;
                    self.usd_locked = self.usd_locked + amount;
                    Ok(())
                } else {
                    Err(BookError::InsufficientBalance)
                }
            },
            Currency::Btc => {
                if amount <= self.btc_available {
                    self.btc_available = self.btc_available - amount;
                    self.btc_locked = self.btc_locked + amount;
                    Ok(())
                } else {
                    Err(BookError::InsufficientBalance)
                }
            },
        }
    }

    /// Move `amount` from locked back to available, failing if and only if
    /// less than `amount` is locked; on failure nothing changes. The user's
    /// total in the currency never changes.
    pub fn unlock(&mut self, c: Currency, amount: u64) -> (r: Result<(), BookError>)
        requires
            old(self).spec_total(c) <= u64::MAX,
        ensures
            amount <= old(self).spec_locked(c) ==> {
                &&& r is Ok
                &&& final(self).spec_locked(c) == old(self).spec_locked(c) - amount
                &&& final(self).spec_available(c) == old(self).spec_available(c) + amount
            },
            amount > old(self).spec_locked(c) ==> r == Err::<(), BookError>(
                BookError::InsufficientBalance,
            ) && *final(self) == *old(self),
            final(self).spec_total(c) == old(self).spec_total(c),
            final(self).spec_available(c.spec_other()) == old(self).spec_available(c.spec_other()),
            final(self).spec_locked(c.spec_other()) == old(self).spec_locked(c.spec_other()),
            final(self).user_id == old(self).user_id,
    {
        match c {
            Currency::Usd => {
                if amount <= self.usd_locked {
                    self.usd_locked = self.usd_locked - amount;
                    self.usd_available = self.usd_available + amount;
                    Ok(())
                } else {
                    Err(BookError::InsufficientBalance)
                }
            },
            Currency::Btc => {
                if amount <= self.btc_locked {
                    self.btc_locked = self.btc_locked - amount;
                    self.btc_available = self.btc_available + amount;
                    Ok(())
                } else {
                    Err(BookError::InsufficientBalance)
                }
            },
        }
    }

    /// Debit the locked bucket, failing if and only if less than `amount`
    /// is locked; on failure nothing changes.
    pub fn subtract_locked(&mut self, c: Currency, amount: u64) -> (r: Result<(), BookError>)
        ensures
            amount <= old(self).spec_locked(c) ==> {
                &&& r is Ok
                &&& final(self).spec_locked(c) == old(self).spec_locked(c) - amount
                &&& final(self).spec_available(c) == old(self).spec_available(c)
                &&& final(self).spec_available(c.spec_other()) == old(self).spec_available(
                    c.spec_other(),
                )
                &&& final(self).spec_locked(c.spec_other()) == old(self).spec_locked(
                    c.spec_other(),
                )
                &&& final(self).user_id == old(self).user_id
            },
            amount > old(self).spec_locked(c) ==> r == Err::<(), BookError>(
                BookError::InsufficientBalance,
            ) && *final(self) == *old(self),
    {
        match c {
            Currency::Usd => {
                if amount <= self.usd_locked {
                    self.usd_locked = self.usd_locked - amount;
                    Ok(())
                } else {
                    Err(BookError::InsufficientBalance)
                }
            },
            Currency::Btc => {
                if amount <= self.btc_locked {
                    self.btc_locked = self.btc_locked - amount;
                    Ok(())
                } else {
                    Err(BookError::InsufficientBalance)
                }
            },
        }
    }
}

} // verus!
