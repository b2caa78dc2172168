//! The transaction record and its two closed enumerations.

use vstd::prelude::*;

verus! {

/// What a transaction does with the money.
#[derive(Debug, Clone, Copy, PartialEq, Eq, Structural)]
pub enum TxType {
    Deposit,
    Transfer,
    Withdrawal,
}

/// How a transaction ended.
#[derive(Debug, Clone, Copy, PartialEq, Eq, Structural)]
pub enum TxStatus {
    Success,
    Failure,
    Pending,
}

/// The wire formats a transaction list can be read from or written to.
#[derive(Debug, Clone, Copy, PartialEq, Eq, Structural)]
pub enum SupportedFileFormat {
    Csv,
    Bin,
    Text,
}

/// One transaction with its eight fields.
#[derive(Debug, Clone)]
pub struct Transaction {
    pub id: u64,
    pub kind: TxType,
    pub from_user: u64,
    pub to_user: u64,
    pub amount: u64,
    pub timestamp: u64,
    pub status: TxStatus,
    pub description: String,
}

/// The mathematical value of a [`Transaction`]: the same eight fields, the
/// description as a sequence of characters.
pub struct TransactionView {
    pub id: u64,
    pub kind: TxType,
    pub from_user: u64,
    pub to_user: u64,
    pub amount: u64,
    pub timestamp: u64,
    pub status: TxStatus,
    pub description: Seq<char>,
}

impl View for Transaction {
    type V = TransactionView;

    open spec fn view(&self) -> TransactionView {
        TransactionView {
            id: self.id,
            kind: self.kind,
            from_user: self.from_user,
            to_user: self.to_user,
            amount: self.amount,
            timestamp: self.timestamp,
            status: self.status,
            description: self.description@,
        }
    }
}

impl PartialEq for Transaction {
    fn eq(&self, other: &Self) -> (r: bool) {
        self.id == other.id && self.kind == other.kind && self.from_user == other.from_user
            && self.to_user == other.to_user && self.amount == other.amount && self.timestamp
            == other.timestamp && self.status == other.status && self.description
            == other.description
    }
}

impl vstd::std_specs::cmp::PartialEqSpecImpl for Transaction {
    open spec fn obeys_eq_spec() -> bool {
        true
    }

    open spec fn eq_spec(&self, other: &Self) -> bool {
        self@ == other@
    }
}

/// The values of a list of transactions, in order.
pub open spec fn views(txs: Seq<Transaction>) -> Seq<TransactionView> {
    txs.map_values(|tx: Transaction| tx@)
}

impl TxType {
    /// The byte that stands for this kind in the binary format.
    pub open spec fn code(self) -> u8 {
        match self {
            TxType::Deposit => 0,
            TxType::Transfer => 1,
            TxType::Withdrawal => 2,
        }
    }

    /// The upper-case name that stands for this kind in the two text formats.
    pub open spec fn name(self) -> Seq<char> {
        match self {
            TxType::Deposit => "DEPOSIT"@,
            TxType::Transfer => "TRANSFER"@,
            TxType::Withdrawal => "WITHDRAWAL"@,
        }
    }

    /// The kind that a byte of the binary format stands for, if any.
    pub open spec fn of_code(code: u8) -> Option<TxType> {
        if code == 0 {
            Some(TxType::Deposit)
        } else if code == 1 {
            Some(TxType::Transfer)
        } else if code == 2 {
            Some(TxType::Withdrawal)
        } else {
            None
        }
    }

    /// The kind that a name stands for, if any. Names are case-sensitive.
    pub open spec fn of_name(name: Seq<char>) -> Option<TxType> {
        if name == "DEPOSIT"@ {
            Some(TxType::Deposit)
        } else if name == "TRANSFER"@ {
            Some(TxType::Transfer)
        } else if name == "WITHDRAWAL"@ {
            Some(TxType::Withdrawal)
        } else {
            None
        }
    }

    pub fn to_code(self) -> (code: u8)
        ensures
            code == self.code(),
    {
        match self {
            TxType::Deposit => 0,
            TxType::Transfer => 1,
            TxType::Withdrawal => 2,
        }
    }

    pub fn from_code(code: u8) -> (kind: Option<TxType>)
        ensures
            kind == TxType::of_code(code),
    {
        match code {
            0 => Some(TxType::Deposit),
            1 => Some(TxType::Transfer),
            2 => Some(TxType::Withdrawal),
            _ => None,
        }
    }

    pub fn as_str(self) -> (name: &'static str)
        ensures
            name@ == self.name(),
    {
        match self {
            TxType::Deposit => "DEPOSIT",
            TxType::Transfer => "TRANSFER",
            TxType::Withdrawal => "WITHDRAWAL",
        }
    }

    pub fn to_string(&self) -> (name: String)
        ensures
            name@ == self.name(),
    {
        self.as_str().to_owned()
    }
}

impl TxStatus {
    /// The byte that stands for this status in the binary format.
    pub open spec fn code(self) -> u8 {
        match self {
            TxStatus::Success => 0,
            TxStatus::Failure => 1,
            TxStatus::Pending => 2,
        }
    }

    /// The upper-case name that stands for this status in the two text formats.
    pub open spec fn name(self) -> Seq<char> {
        match self {
            TxStatus::Success => "SUCCESS"@,
            TxStatus::Failure => "FAILURE"@,
            TxStatus::Pending => "PENDING"@,
        }
    }

    /// The status that a byte of the binary format stands for, if any.
    pub open spec fn of_code(code: u8) -> Option<TxStatus> {
        if code == 0 {
            Some(TxStatus::Success)
        } else if code == 1 {
            Some(TxStatus::Failure)
        } else if code == 2 {
            Some(TxStatus::Pending)
        } else {
            None
        }
    }

    /// The status that a name stands for, if any. Names are case-sensitive.
    pub open spec fn of_name(name: Seq<char>) -> Option<TxStatus> {
        if name == "SUCCESS"@ {
            Some(TxStatus::Success)
        } else if name == "FAILURE"@ {
            Some(TxStatus::Failure)
        } else if name == "PENDING"@ {
            Some(TxStatus::Pending)
        } else {
            None
        }
    }

    pub fn to_code(self) -> (code: u8)
        ensures
            code == self.code(),
    {
        match self {
            TxStatus::Success => 0,
            TxStatus::Failure => 1,
            TxStatus::Pending => 2,
        }
    }

    pub fn from_code(code: u8) -> (status: Option<TxStatus>)
        ensures
            status == TxStatus::of_code(code),
    {
        match code {
            0 => Some(TxStatus::Success),
            1 => Some(TxStatus::Failure),
            2 => Some(TxStatus::Pending),
            _ => None,
        }
    }

    pub fn as_str(self) -> (name: &'static str)
        ensures
            name@ == self.name(),
    {
        match self {
            TxStatus::Success => "SUCCESS",
            TxStatus::Failure => "FAILURE",
            TxStatus::Pending => "PENDING",
        }
    }

    pub fn to_string(&self) -> (name: String)
        ensures
            name@ == self.name(),
    {
        self.as_str().to_owned()
    }
}

} // verus!
