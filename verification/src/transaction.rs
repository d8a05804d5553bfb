//! A transaction names a range of ring positions that moves from one node to
//! another when the ring changes.

use vstd::prelude::*;

use crate::decimal::{decimal, push_decimal};
use crate::ip::lemma_decimal_value;
use crate::text::char_digits_value;

verus! {

/// What a [`Transaction`] holds, as plain values.
#[verifier::ext_equal]
pub struct TransactionView {
    pub source: Seq<char>,
    pub destination: Seq<char>,
    pub min: u64,
    pub max: u64,
    pub exception: bool,
}

/// The transaction that [`Transaction::new`] builds: a range that wraps past
/// the top of the ring (`min > max`) is flagged as an exception.
pub open spec fn transaction_view(
    source: Seq<char>,
    destination: Seq<char>,
    min: u64,
    max: u64,
) -> TransactionView {
    TransactionView { source, destination, min, max, exception: min > max }
}

/// Whether `num` lies in the range of ring positions `]min, max]` that a
/// transaction moves; an exception range wraps round the top of the ring.
pub open spec fn range_holds(t: TransactionView, num: u64) -> bool {
    if !t.exception {
        t.min < num && num <= t.max
    } else {
        num <= t.max || num > t.min
    }
}

/// The text of a transaction's range: `]min,max]`, or, for a range that wraps,
/// `[0,max] u ]min,..[`.
pub open spec fn range_text(t: TransactionView) -> Seq<char> {
    if t.exception {
        "[0,"@ + decimal(t.max as nat) + "] u ]"@ + decimal(t.min as nat) + ",..["@
    } else {
        "]"@ + decimal(t.min as nat) + ","@ + decimal(t.max as nat) + "]"@
    }
}

/// The one-line description of a transaction.
pub open spec fn transaction_text(t: TransactionView) -> Seq<char> {
    "source: "@ + t.source + "  -  destination: "@ + t.destination + "  -  range: "@ + range_text(t)
}

/// The views of a sequence of transactions.
pub open spec fn transaction_views(txs: Seq<Transaction>) -> Seq<TransactionView> {
    txs.map_values(|t: Transaction| t@)
}

/// A range that does not wrap holds exactly the positions above `min` and up
/// to `max`; a range that wraps (`min > max`) holds exactly the positions
/// outside `]max, min]`, the positions the range from `max` to `min` would not.
pub proof fn law_range_membership(source: Seq<char>, destination: Seq<char>, min: u64, max: u64, num: u64)
    ensures
        min <= max ==> (range_holds(transaction_view(source, destination, min, max), num) <==> min < num && num
            <= max),
        min <= max ==> num > max ==> !range_holds(transaction_view(source, destination, min, max), num),
        min > max ==> (range_holds(transaction_view(source, destination, min, max), num) <==> !range_holds(
            transaction_view(source, destination, max, min),
            num,
        )),
{
}

/// The text of a transaction names its source and destination and writes
/// both bounds of its range in full decimal: for a range that does not wrap
/// it ends with `]min,max]`, for one that wraps with `[0,max] u ]min,..[`, and
/// the digits written read back as the bounds themselves.
pub proof fn law_transaction_text_writes_bounds(t: TransactionView)
    ensures
        char_digits_value(decimal(t.min as nat)) == t.min,
        char_digits_value(decimal(t.max as nat)) == t.max,
        !t.exception ==> transaction_text(t) == "source: "@ + t.source + "  -  destination: "@ + t.destination
            + "  -  range: ]"@ + decimal(t.min as nat) + ","@ + decimal(t.max as nat) + "]"@,
        t.exception ==> transaction_text(t) == "source: "@ + t.source + "  -  destination: "@ + t.destination
            + "  -  range: [0,"@ + decimal(t.max as nat) + "] u ]"@ + decimal(t.min as nat) + ",..["@,
{
    lemma_decimal_value(t.min as nat);
    lemma_decimal_value(t.max as nat);
    if t.exception {
        assert(transaction_text(t) =~= "source: "@ + t.source + "  -  destination: "@ + t.destination
            + "  -  range: [0,"@ + decimal(t.max as nat) + "] u ]"@ + decimal(t.min as nat) + ",..["@) by {
            reveal_strlit("  -  range: ");
            reveal_strlit("  -  range: [0,");
            reveal_strlit("[0,");
        }
    } else {
        assert(transaction_text(t) =~= "source: "@ + t.source + "  -  destination: "@ + t.destination
            + "  -  range: ]"@ + decimal(t.min as nat) + ","@ + decimal(t.max as nat) + "]"@) by {
            reveal_strlit("  -  range: ");
            reveal_strlit("  -  range: ]");
            reveal_strlit("]");
        }
    }
}

/// A range of ring positions `]min, max]` that moves from `source` to
/// `destination`.
/// Verified code outside this module reads it through its view (`@`) and its
/// methods: with one field private, Verus gives other modules no access to
/// any of its fields.
#[derive(Debug, Clone)]
pub struct Transaction {
    pub source: String,
    pub destination: String,
    pub min: u64,
    pub max: u64,
    exception: bool,
}

impl View for Transaction {
    type V = TransactionView;

    closed spec fn view(&self) -> TransactionView {
        TransactionView {
            source: self.source@,
            destination: self.destination@,
            min: self.min,
            max: self.max,
            exception: self.exception,
        }
    }
}

impl Transaction {
    pub fn new(source: String, destination: String, min: u64, max: u64) -> (t: Self)
        ensures
            t@ == transaction_view(source@, destination@, min, max),
    {
        Transaction { exception: min > max, source, destination, min, max }
    }

    /// Whether the transaction's range holds `num`.
    pub fn in_range(&self, num: u64) -> (r: bool)
        ensures
            r == range_holds(self@, num),
    {
        if !self.exception {
            return num > self.min && num <= self.max;
        }
        num <= self.max || num > self.min
    }

    /// The transaction with exactly these fields.
    pub fn from_parts(source: String, destination: String, min: u64, max: u64, exception: bool) -> (t: Self)
        ensures
            t@ == (TransactionView { source: source@, destination: destination@, min, max, exception }),
    {
        Transaction { source, destination, min, max, exception }
    }

    /// Whether the range wraps round the top of the ring.
    pub fn is_exception(&self) -> (r: bool)
        ensures
            r == self@.exception,
    {
        self.exception
    }

    /// The one-line description of the transaction: its source, its
    /// destination and its range.
    pub fn display_string(&self) -> (s: String)
        ensures
            s@ == transaction_text(self@),
    {
        let mut s = String::new();
        s.append("source: ");
        s.append(self.source.as_str());
        s.append("  -  destination: ");
        s.append(self.destination.as_str());
        s.append("  -  range: ");
        if self.exception {
            s.append("[0,");
            push_decimal(&mut s, self.max as u128);
            s.append("] u ]");
            push_decimal(&mut s, self.min as u128);
            s.append(",..[");
        } else {
            s.append("]");
            push_decimal(&mut s, self.min as u128);
            s.append(",");
            push_decimal(&mut s, self.max as u128);
            s.append("]");
        }
        assert(s@ =~= transaction_text(self@));
        s
    }
}

/// Two transactions are equal when all five of their fields are.
impl PartialEq for Transaction {
    fn eq(&self, other: &Self) -> (r: bool) {
        self.source == other.source && self.destination == other.destination && self.exception
            == other.exception && self.min == other.min && self.max == other.max
    }
}

impl vstd::std_specs::cmp::PartialEqSpecImpl for Transaction {
    open spec fn obeys_eq_spec() -> bool {
        true
    }

    open spec fn eq_spec(&self, other: &Self) -> bool {
        self@ == other@
    }
}

} // verus!
