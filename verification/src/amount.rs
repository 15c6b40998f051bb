//! An amount of a native coin or of a contract token, named by one
//! denomination string: a contract token is written as `cw20:` and the
//! contract's address.

use vstd::prelude::*;
use vstd::string::*;

verus! {

/// An amount of a native denomination.
#[derive(Debug, PartialEq, Eq)]
pub struct Coin {
    pub denom: String,
    pub amount: u128,
}

/// An amount of the token of the contract at `address`.
#[derive(Debug, PartialEq, Eq)]
pub struct Cw20Coin {
    pub address: String,
    pub amount: u128,
}

/// An amount of either kind.
#[derive(Debug, PartialEq, Eq)]
pub enum Amount {
    Native(Coin),
    Cw20(Cw20Coin),
}

/// The amount does not fit in 64 bits.
#[derive(Clone, Copy, Debug, PartialEq, Eq, Structural)]
pub struct AmountOverflow;

/// The prefix that marks the denomination of a contract token.
pub open spec fn cw20_prefix() -> Seq<char> {
    seq!['c', 'w', '2', '0', ':']
}

/// The denomination of the token of `contract`.
pub open spec fn cw20_denom(contract: Seq<char>) -> Seq<char> {
    cw20_prefix() + contract
}

/// Whether a denomination is that of a contract token.
pub open spec fn is_cw20_denom(denom: Seq<char>) -> bool {
    denom.len() >= 5 && denom.subrange(0, 5) == cw20_prefix()
}

/// What an amount is: its kind, the denomination or address, and the number.
pub struct AmountView {
    pub cw20: bool,
    pub name: Seq<char>,
    pub amount: nat,
}

impl View for Amount {
    type V = AmountView;

    open spec fn view(&self) -> AmountView {
        match *self {
            Amount::Native(c) => AmountView { cw20: false, name: c.denom@, amount: c.amount as nat },
            Amount::Cw20(c) => AmountView { cw20: true, name: c.address@, amount: c.amount as nat },
        }
    }
}

impl AmountView {
    /// The denomination string that names the amount's asset.
    pub open spec fn denom(self) -> Seq<char> {
        if self.cw20 {
            cw20_denom(self.name)
        } else {
            self.name
        }
    }
}

/// The denomination of the token of `contract`: `cw20:` and the address.
pub fn get_cw20_denom(contract: &str) -> (r: String)
    ensures
        r@ == cw20_denom(contract@),
{
    proof {
        reveal_strlit("cw20:");
    }
    let prefix = "cw20:";
    String::from_str(prefix).concat(contract)
}

/// Whether `denom` starts with `cw20:`.
pub fn has_cw20_prefix(denom: &str) -> (r: bool)
    ensures
        r == is_cw20_denom(denom@),
{
    if denom.unicode_len() < 5 {
        return false;
    }
    let r = denom.get_char(0) == 'c' && denom.get_char(1) == 'w' && denom.get_char(2) == '2'
        && denom.get_char(3) == '0' && denom.get_char(4) == ':';
    proof {
        let head = denom@.subrange(0, 5);
        if r {
            assert(head =~= cw20_prefix());
        } else {
            assert(head[0] == denom@[0] && head[1] == denom@[1] && head[2] == denom@[2] && head[3]
                == denom@[3] && head[4] == denom@[4]);
            assert(cw20_prefix()[0] == 'c' && cw20_prefix()[1] == 'w' && cw20_prefix()[2] == '2'
                && cw20_prefix()[3] == '0' && cw20_prefix()[4] == ':');
        }
    }
    r
}

impl Amount {
    /// The amount that `denom` and `amount` name: of a contract token where
    /// `denom` starts with `cw20:`, the rest being the address, and of a
    /// native coin otherwise.
    pub fn from_parts(denom: String, amount: u128) -> (r: Self)
        ensures
            r@ == if is_cw20_denom(denom@) {
                AmountView {
                    cw20: true,
                    name: denom@.subrange(5, denom@.len() as int),
                    amount: amount as nat,
                }
            } else {
                AmountView { cw20: false, name: denom@, amount: amount as nat }
            },
            r@.denom() == denom@,
    {
        if has_cw20_prefix(denom.as_str()) {
            let len = denom.as_str().unicode_len();
            let address = String::from_str(denom.as_str().substring_char(5, len));
            assert(cw20_denom(address@) =~= denom@) by {
                assert(denom@.subrange(0, 5) + denom@.subrange(5, denom@.len() as int) =~= denom@);
            }
            Amount::Cw20(Cw20Coin { address, amount })
        } else {
            Amount::Native(Coin { denom, amount })
        }
    }

    /// An amount of the token of the contract at `addr`.
    pub fn cw20(amount: u128, addr: &str) -> (r: Self)
        ensures
            r@ == (AmountView { cw20: true, name: addr@, amount: amount as nat }),
    {
        Amount::Cw20(Cw20Coin { address: String::from_str(addr), amount })
    }

    /// An amount of the native denomination `denom`.
    pub fn native(amount: u128, denom: &str) -> (r: Self)
        ensures
            r@ == (AmountView { cw20: false, name: denom@, amount: amount as nat }),
    {
        Amount::Native(Coin { denom: String::from_str(denom), amount })
    }

    /// The denomination string that names the amount's asset.
    pub fn denom(&self) -> (r: String)
        ensures
            r@ == self@.denom(),
    {
        match self {
            Amount::Native(c) => c.denom.clone(),
            Amount::Cw20(c) => get_cw20_denom(c.address.as_str()),
        }
    }

    /// The number of units.
    pub fn amount(&self) -> (r: u128)
        ensures
            r == self@.amount,
    {
        match self {
            Amount::Native(c) => c.amount,
            Amount::Cw20(c) => c.amount,
        }
    }

    /// The number of units as a 64-bit number, where it is one.
    pub fn u64_amount(&self) -> (r: Result<u64, AmountOverflow>)
        ensures
            match r {
                Ok(n) => n == self@.amount,
                Err(_) => self@.amount > u64::MAX,
            },
    {
        let amount = self.amount();
        if amount <= u64::MAX as u128 {
            Ok(amount as u64)
        } else {
            Err(AmountOverflow)
        }
    }

    /// Whether the amount is zero.
    pub fn is_empty(&self) -> (r: bool)
        ensures
            r == (self@.amount == 0),
    {
        match self {
            Amount::Native(c) => c.amount == 0,
            Amount::Cw20(c) => c.amount == 0,
        }
    }
}

} // verus!
