//! Requests as clients write them, and how their fields are read.
use super::book::Command;
use super::decimal::Decimal;
use super::order::{Order, OrderView};
use super::order_id::OrderId;
use super::order_status::OrderStatus;
use crate::order_side::OrderSide;
use vstd::prelude::*;
use vstd::string::*;

verus! {

/// `c` is one of the ten decimal digits.
pub open spec fn is_digit(c: char) -> bool {
    '0' <= c <= '9'
}

/// `text` is made of decimal digits, at least one.
pub open spec fn all_digits(text: Seq<char>) -> bool {
    text.len() > 0 && forall|i: int| 0 <= i < text.len() ==> is_digit(#[trigger] text[i])
}

/// The number that the digits of `text` write in base ten.
pub open spec fn number(text: Seq<char>) -> nat
    decreases text.len(),
{
    if text.len() == 0 {
        0
    } else {
        number(text.drop_last()) * 10 + ((text.last() as u32 - '0' as u32) as nat)
    }
}

/// The identifier that `text` writes: its number, if it is made of digits
/// and the number fits 64 bits.
pub open spec fn identifier(text: Seq<char>) -> Option<u64> {
    if all_digits(text) && number(text) <= u64::MAX {
        Some(number(text) as u64)
    } else {
        None
    }
}

/// The number written by the first digits of a text is no larger than the
/// number written by all of it.
pub proof fn lemma_number_grows(text: Seq<char>, k: int)
    requires
        all_digits(text),
        0 <= k <= text.len(),
    ensures
        number(text.take(k)) <= number(text),
    decreases text.len() - k,
{
    if k < text.len() {
        lemma_number_grows(text, k + 1);
        assert(text.take(k + 1).drop_last() =~= text.take(k));
        assert(is_digit(text[k]));
        assert(text.take(k + 1).last() == text[k]);
    } else {
        assert(text.take(k) =~= text);
    }
}

/// Reads an identifier written in decimal digits.
pub fn parse_identifier(text: &str) -> (id: Option<u64>)
    ensures
        id == identifier(text@),
{
    broadcast use is_ascii_spec_bytes;

    if !text.is_ascii() {
        proof {
            let i = choose|i: int|
                0 <= i < text@.len() && !('\0' <= #[trigger] text@[i] <= '\u{7f}');
            assert(!is_digit(text@[i]));
        }
        return None;
    }
    let bytes = text.as_bytes();
    let length = bytes.len();
    if length == 0 {
        return None;
    }
    let mut value: u64 = 0;
    let mut i: usize = 0;
    assert(text@.take(0) =~= Seq::<char>::empty());
    while i < length
        invariant
            i <= length,
            length == text@.len(),
            length > 0,
            is_ascii(text),
            bytes@ == text.spec_bytes(),
            forall|j: int| 0 <= j < i ==> is_digit(#[trigger] text@[j]),
            value == number(text@.take(i as int)),
        decreases length - i,
    {
        let byte = bytes[i];
        assert(byte == text@[i as int] as u8);
        if byte < 48 || byte > 57 {
            assert(!is_digit(text@[i as int]));
            return None;
        }
        assert(is_digit(text@[i as int]));
        let digit: u64 = (byte - 48) as u64;
        proof {
            assert(text@.take(i + 1).drop_last() =~= text@.take(i as int));
            assert(text@.take(i + 1).last() == text@[i as int]);
            assert(number(text@.take(i + 1)) == value * 10 + digit);
            if all_digits(text@) {
                lemma_number_grows(text@, i + 1);
            }
        }
        let tens = match value.checked_mul(10) {
            Some(tens) => tens,
            None => {
                return None;
            },
        };
        value = match tens.checked_add(digit) {
            Some(sum) => sum,
            None => {
                return None;
            },
        };
        i = i + 1;
    }
    assert(text@.take(i as int) =~= text@);
    Some(value)
}

/// Why a request could not be turned into an order.
#[derive(Clone, Copy, Debug, PartialEq, Eq, Structural)]
pub enum OrderRequestError {
    /// The request does not ask for an order to be created.
    MismatchType,
}

impl OrderRequestError {
    /// The error in words.
    pub fn message(&self) -> (text: &'static str)
        ensures
            text@ == "order type mismatch"@,
    {
        match self {
            OrderRequestError::MismatchType => "order type mismatch",
        }
    }
}

/// A request to the engine, with its fields as the client wrote them.
#[derive(Debug)]
pub enum OrderRequest {
    /// Create a limit order.
    Create {
        /// The account, in decimal digits.
        account_id: String,
        /// The quantity.
        amount: Decimal,
        /// The order's identifier, in decimal digits.
        order_id: String,
        /// The trading pair; carried, not read.
        pair: String,
        /// The limit price.
        limit_price: Decimal,
        /// The side of the book.
        side: OrderSide,
    },
    /// Cancel a resting order.
    Delete {
        /// The order's identifier, in decimal digits.
        order_id: String,
    },
}

impl OrderRequest {
    /// What the request asks for, if its fields can be read: identifiers
    /// are written in digits and fit 64 bits, and price and quantity are in
    /// range in minor units, the quantity being positive.
    pub open spec fn command(&self) -> Option<Command> {
        match self {
            OrderRequest::Create { account_id, amount, order_id, pair, limit_price, side } => {
                if identifier(order_id@) is Some && identifier(account_id@) is Some
                    && limit_price.in_range() && amount.in_range() && amount.minor_units() > 0 {
                    Some(
                        Command::Create(
                            OrderView {
                                id: OrderId(identifier(order_id@)->0),
                                account_id: identifier(account_id@)->0,
                                side: *side,
                                limit_price: limit_price.minor_units() as u64,
                                amount: amount.minor_units() as u64,
                                filled: 0,
                                status: OrderStatus::Open,
                            },
                        ),
                    )
                } else {
                    None
                }
            },
            OrderRequest::Delete { order_id } => {
                if identifier(order_id@) is Some {
                    Some(Command::Delete(OrderId(identifier(order_id@)->0)))
                } else {
                    None
                }
            },
        }
    }

    /// Whether the fields of the request can be read.
    pub fn is_well_formed(&self) -> (readable: bool)
        ensures
            readable == (self.command() is Some),
    {
        match self {
            OrderRequest::Create { account_id, amount, order_id, pair, limit_price, side } => {
                let quantity = amount.to_minor_units();
                parse_identifier(order_id.as_str()).is_some() && parse_identifier(
                    account_id.as_str(),
                ).is_some() && limit_price.to_minor_units().is_some() && quantity.is_some()
                    && quantity.unwrap() > 0
            },
            OrderRequest::Delete { order_id } => parse_identifier(order_id.as_str()).is_some(),
        }
    }

    /// The identifier of the order that the request speaks of, if it can be
    /// read.
    pub fn order_id(&self) -> (id: Option<OrderId>)
        ensures
            id == match self {
                OrderRequest::Create { order_id, .. } => match identifier(order_id@) {
                    Some(raw) => Some(OrderId(raw)),
                    None => None,
                },
                OrderRequest::Delete { order_id } => match identifier(order_id@) {
                    Some(raw) => Some(OrderId(raw)),
                    None => None,
                },
            },
    {
        let text = match self {
            OrderRequest::Create { order_id, .. } => order_id,
            OrderRequest::Delete { order_id } => order_id,
        };
        match parse_identifier(text.as_str()) {
            Some(raw) => Some(OrderId::new(raw)),
            None => None,
        }
    }
}

impl Order {
    /// The order that a request asks to create.
    ///
    /// A request to delete gives `MismatchType`. The fields of a request to
    /// create must be readable; the order is then fresh, with the price and
    /// the quantity in minor units.
    pub fn try_from(order_request: OrderRequest) -> (made: Result<Order, OrderRequestError>)
        requires
            order_request is Create ==> order_request.command() is Some,
        ensures
            match made {
                Ok(order) => order_request is Create && order_request.command() == Some(
                    Command::Create(order@),
                ),
                Err(error) => order_request is Delete && error == OrderRequestError::MismatchType,
            },
    {
        match order_request {
            OrderRequest::Create { account_id, amount, order_id, pair, limit_price, side } => {
                let id = parse_identifier(order_id.as_str()).unwrap();
                let account = parse_identifier(account_id.as_str()).unwrap();
                let price = limit_price.to_minor_units().unwrap();
                let quantity = amount.to_minor_units().unwrap();
                Ok(Order::new(OrderId::new(id), account, side, price, quantity))
            },
            OrderRequest::Delete { .. } => Err(OrderRequestError::MismatchType),
        }
    }
}

} // verus!
