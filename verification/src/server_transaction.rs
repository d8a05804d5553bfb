//! The server's transactions: ranges of a ring of `u128` positions moving
//! between nodes named by `u128` identifiers.

use vstd::prelude::*;

use crate::decimal::{decimal, push_decimal};
use crate::ip::lemma_decimal_value;
use crate::text::char_digits_value;

verus! {

/// What a server [`Transaction`] holds, as plain values.
pub struct ServerTransactionView {
    pub source: u128,
    pub destination: u128,
    pub min: u128,
    pub max: u128,
    pub exception: bool,
}

/// The transaction that [`Transaction::new`] builds: a range that wraps past
/// the top of the ring (`min > max`) is flagged as an exception.
pub open spec fn server_transaction_view(source: u128, destination: u128, min: u128, max: u128) -> ServerTransactionView {
    ServerTransactionView { source, destination, min, max, exception: min > max }
}

/// Whether `num` lies in the range `]min, max]`; an exception range wraps
/// round the top of the ring.
pub open spec fn server_range_holds(t: ServerTransactionView, num: u128) -> bool {
    if !t.exception {
        t.min < num && num <= t.max
    } else {
        num <= t.max || num > t.min
    }
}

/// Two transactions are equal when their source, destination and exception
/// flag are; their bounds are not compared.
pub open spec fn server_transactions_equal(a: ServerTransactionView, b: ServerTransactionView) -> bool {
    a.source == b.source && a.destination == b.destination && a.exception == b.exception
}

/// The one-line description of a transaction.
pub open spec fn server_transaction_text(t: ServerTransactionView) -> Seq<char> {
    "source: "@ + decimal(t.source as nat) + "  -  destination: "@ + decimal(t.destination as nat) + "  -  range: "@
        + if t.exception {
        "[0,"@ + decimal(t.max as nat) + "] u ]"@ + decimal(t.min as nat) + ",..["@
    } else {
        "]"@ + decimal(t.min as nat) + ","@ + decimal(t.max as nat) + "]"@
    }
}

/// A range that does not wrap holds exactly the positions above `min` and up
/// to `max`; a range that wraps (`min > max`) holds exactly the positions
/// outside `]max, min]`, the positions the range from `max` to `min` would not.
pub proof fn law_server_range_membership(source: u128, destination: u128, min: u128, max: u128, num: u128)
    ensures
        min <= max ==> (server_range_holds(server_transaction_view(source, destination, min, max), num) <==> min
            < num && num <= max),
        min <= max ==> num > max ==> !server_range_holds(server_transaction_view(source, destination, min, max), num),
        min > max ==> (server_range_holds(server_transaction_view(source, destination, min, max), num)
            <==> !server_range_holds(server_transaction_view(source, destination, max, min), num)),
{
}

/// The text of a transaction writes its source, its destination and both
/// bounds of its range in full decimal, and the digits written read back as
/// the numbers themselves.
pub proof fn law_server_text_writes_numbers(t: ServerTransactionView)
    ensures
        char_digits_value(decimal(t.source as nat)) == t.source,
        char_digits_value(decimal(t.destination as nat)) == t.destination,
        char_digits_value(decimal(t.min as nat)) == t.min,
        char_digits_value(decimal(t.max as nat)) == t.max,
        !t.exception ==> server_transaction_text(t) == "source: "@ + decimal(t.source as nat)
            + "  -  destination: "@ + decimal(t.destination as nat) + "  -  range: "@ + "]"@ + decimal(
            t.min as nat,
        ) + ","@ + decimal(t.max as nat) + "]"@,
        t.exception ==> server_transaction_text(t) == "source: "@ + decimal(t.source as nat)
            + "  -  destination: "@ + decimal(t.destination as nat) + "  -  range: "@ + "[0,"@ + decimal(
            t.max as nat,
        ) + "] u ]"@ + decimal(t.min as nat) + ",..["@,
{
    lemma_decimal_value(t.source as nat);
    lemma_decimal_value(t.destination as nat);
    lemma_decimal_value(t.min as nat);
    lemma_decimal_value(t.max as nat);
}

/// A range of ring positions `]min, max]` that moves from node `source` to
/// node `destination`.
/// Verified code outside this module reads it through its view (`@`) and its
/// methods: with one field private, Verus gives other modules no access to
/// any of its fields.
#[derive(Debug, Clone, Copy)]
pub struct Transaction {
    pub source: u128,
    pub destination: u128,
    pub min: u128,
    pub max: u128,
    exception: bool,
}

impl View for Transaction {
    type V = ServerTransactionView;

    closed spec fn view(&self) -> ServerTransactionView {
        ServerTransactionView {
            source: self.source,
            destination: self.destination,
            min: self.min,
            max: self.max,
            exception: self.exception,
        }
    }
}

impl Transaction {
    pub fn new(source: u128, destination: u128, min: u128, max: u128) -> (t: Self)
        ensures
            t@ == server_transaction_view(source, destination, min, max),
    {
        Transaction { exception: min > max, source, destination, min, max }
    }

    /// Whether the transaction's range holds `num`.
    pub fn in_range(&self, num: u128) -> (r: bool)
        ensures
            r == server_range_holds(self@, num),
    {
        if !self.exception {
            return num > self.min && num <= self.max;
        }
        num <= self.max || num > self.min
    }

    /// The source and destination nodes.
    pub fn route(&self) -> (r: (u128, u128))
        ensures
            r == (self@.source, self@.destination),
    {
        (self.source, self.destination)
    }

    /// Whether the range wraps round the top of the ring.
    pub fn is_exception(&self) -> (r: bool)
        ensures
            r == self@.exception,
    {
        self.exception
    }

    /// The transaction with exactly these fields.
    pub fn from_parts(source: u128, destination: u128, min: u128, max: u128, exception: bool) -> (t: Self)
        ensures
            t@ == (ServerTransactionView { source, destination, min, max, exception }),
    {
        Transaction { source, destination, min, max, exception }
    }

    /// The one-line description of the transaction.
    pub fn display_string(&self) -> (s: String)
        ensures
            s@ == server_transaction_text(self@),
    {
        let mut s = String::new();
        s.append("source: ");
        push_decimal(&mut s, self.source);
        s.append("  -  destination: ");
        push_decimal(&mut s, self.destination);
        s.append("  -  range: ");
        if self.exception {
            s.append("[0,");
            push_decimal(&mut s, self.max);
            s.append("] u ]");
            push_decimal(&mut s, self.min);
            s.append(",..[");
        } else {
            s.append("]");
            push_decimal(&mut s, self.min);
            s.append(",");
            push_decimal(&mut s, self.max);
            s.append("]");
        }
        assert(s@ =~= server_transaction_text(self@));
        s
    }
}

impl PartialEq for Transaction {
    fn eq(&self, other: &Self) -> (r: bool) {
        self.source == other.source && self.destination == other.destination && self.exception == other.exception
    }
}

impl vstd::std_specs::cmp::PartialEqSpecImpl for Transaction {
    open spec fn obeys_eq_spec() -> bool {
        true
    }

    open spec fn eq_spec(&self, other: &Self) -> bool {
        server_transactions_equal(self@, other@)
    }
}

} // verus!
