//! The ways importing and processing a ledger can fail.
use vstd::prelude::*;

verus! {

/// An error found in the ledger data (or a limit of the decimal representation).
#[derive(Clone, Copy, Debug, PartialEq, Eq, Structural)]
pub enum CryptoolsError {
    /// A transaction's two action records have the same polarity.
    SamePolarity { tx_number: u32 },
    /// A transaction has more than two action records.
    TooManyActionRecords { tx_number: u32 },
    /// A transaction has no action record.
    NoActionRecords { tx_number: u32 },
    /// Neither margin account ticker of an exchange contains an underscore.
    MarginNoUnderbar { tx_number: u32 },
    /// An outgoing action record found no lot to spend from.
    NoLotsToSpendFrom { tx_number: u32 },
    /// An outgoing action record spent more than the lots of its account hold.
    RanOutOfLots { tx_number: u32 },
    /// A lot of a non-margin account went negative.
    NegativeLotBalance { tx_number: u32 },
    /// An incoming movement of a transfer or like-kind exchange came out zero or negative.
    NonPositiveIncomingAmount { tx_number: u32 },
    /// The base and quote margin accounts of a margin exchange disagree about their lots.
    MarginLotsMismatch { tx_number: u32 },
    /// A margin action record found no lot to post to.
    NoMarginLot { tx_number: u32 },
    /// A margin account was found in a transfer to oneself.
    MarginInToSelf { tx_number: u32 },
    /// The movements of an action record could not be found again.
    MovementsNotFound { tx_number: u32 },
    /// The outgoing and incoming movements of a transfer to oneself do not line up.
    ToSelfMovementsMismatch { tx_number: u32 },
    /// A data item the ledger refers to is missing.
    MissingData { tx_number: u32 },
    /// A movement amount has more than 8 decimal places.
    ExcessDecimalPlaces { tx_number: u32 },
    /// An account has as many lots as lot numbers can count.
    TooManyLots { tx_number: u32 },
    /// A cost basis came out with the wrong sign (outgoing above zero, incoming below).
    UnexpectedCostBasisSign { tx_number: u32 },
    /// An incoming action record is listed before the outgoing one of its transaction.
    IncomingBeforeOutgoing { tx_number: u32 },
    /// A home currency account has more than one lot.
    MultipleHomeCurrencyLots { tx_number: u32 },
    /// Two margin accounts meet in a transaction that is not an exchange.
    NotAMarginExchange { tx_number: u32 },
    /// A decimal computation left the range of 96-bit decimals.
    DecimalOverflow { tx_number: u32 },
    /// A header account number is not the next one in order.
    AccountNumberOutOfOrder { column: u32 },
    /// A header account number does not parse.
    AccountNumberUnparsable { column: u32 },
    /// A margin header value is none of the accepted words.
    MarginValueUnparsable { column: u32 },
    /// An amount does not parse as a decimal.
    AmountUnparsable { tx_number: u32 },
    /// A transaction date does not parse with the chosen format.
    DateUnparsable { tx_number: u32 },
    /// The proceeds of a transaction do not parse.
    ProceedsUnparsable { tx_number: u32 },
    /// An account number from 1 to the number of accounts that cannot be looked up.
    MissingAccount { account_num: u16 },
    /// An account total that does not fit in a decimal.
    AccountTotalOverflow { account_num: u16 },
    /// The like-kind cut-off date does not parse (as `%y-%m-%d` or `%Y-%m-%d`).
    LkCutoffDateUnparsable,
    /// The ledger lacks its four header rows.
    MissingHeaderRows,
    /// A row has fewer fields than the header.
    MalformedRow { row: u32 },
    /// The input is not well-formed CSV (or not UTF-8, or its rows differ in length).
    CsvUnreadable,
}

} // verus!
