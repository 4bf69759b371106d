use vstd::prelude::*;

verus! {

/// Body of an error reply at the HTTP boundary.
#[derive(Debug, Clone, PartialEq, Eq)]
pub struct ErrorResponse {
    pub error: String,
}

/// Classification of a request failure at the API boundary.
#[derive(Debug, Clone, PartialEq, Eq)]
pub enum ApiError {
    BadRequest(String),
    Unauthorized(String),
    NotFound(String),
    InternalError(String),
}

impl ApiError {
    /// The HTTP status code each kind of failure is reported under.
    pub fn status_code(&self) -> (r: u16)
        ensures
            r == match self {
                ApiError::BadRequest(_) => 400u16,
                ApiError::Unauthorized(_) => 401u16,
                ApiError::NotFound(_) => 404u16,
                ApiError::InternalError(_) => 500u16,
            },
    {
        match self {
            ApiError::BadRequest(_) => 400,
            ApiError::Unauthorized(_) => 401,
            ApiError::NotFound(_) => 404,
            ApiError::InternalError(_) => 500,
        }
    }

    /// The detail message carried by the error.
    pub fn message(&self) -> (r: &String)
        ensures
            r == match self {
                ApiError::BadRequest(m) => m,
                ApiError::Unauthorized(m) => m,
                ApiError::NotFound(m) => m,
                ApiError::InternalError(m) => m,
            },
    {
        match self {
            ApiError::BadRequest(m) => m,
            ApiError::Unauthorized(m) => m,
            ApiError::NotFound(m) => m,
            ApiError::InternalError(m) => m,
        }
    }
}

/// Failures raised by book, matcher, and settlement operations. The engine
/// maps each to its reply message.
#[derive(Debug, Clone, Copy, PartialEq, Eq, Structural)]
pub enum BookError {
    /// A referenced order id is not resting on the book, or a queried user
    /// is unknown.
    NotFound,
    /// The caller does not own the referenced order.
    NotOwner,
    /// A balance is too small for a reservation or a settlement debit.
    InsufficientBalance,
    /// A market order ran out of resting liquidity on the opposite side.
    InsufficientLiquidity,
    /// A currency code other than USD or BTC.
    InvalidCurrency,
    /// A zero amount where a positive one is required.
    NonPositiveAmount,
    /// A fixed-point amount or volume would exceed the representable range.
    Overflow,
    /// A freshly drawn order id collided with a resting one.
    IdCollision,
}

impl BookError {
    /// The reply message for each failure, word for word.
    pub fn message(&self) -> (r: String)
        ensures
            self is NotFound ==> r@ == "Order not found"@,
            self is NotOwner ==> r@ == "Not authorized to cancel this order"@,
            self is InsufficientBalance ==> r@ == "Insufficient balance"@,
            self is InsufficientLiquidity ==> r@ == "Insufficient liquidity for market order"@,
            self is InvalidCurrency ==> r@ == "Currency must be 'USD' or 'BTC'"@,
            self is NonPositiveAmount ==> r@ == "Amount must be positive"@,
            self is Overflow ==> r@ == "Amount out of range"@,
            self is IdCollision ==> r@ == "Order id collision"@,
    {
        match self {
            BookError::NotFound => "Order not found".to_owned(),
            BookError::NotOwner => "Not authorized to cancel this order".to_owned(),
            BookError::InsufficientBalance => "Insufficient balance".to_owned(),
            BookError::InsufficientLiquidity => "Insufficient liquidity for market order".to_owned(),
            BookError::InvalidCurrency => "Currency must be 'USD' or 'BTC'".to_owned(),
            BookError::NonPositiveAmount => "Amount must be positive".to_owned(),
            BookError::Overflow => "Amount out of range".to_owned(),
            BookError::IdCollision => "Order id collision".to_owned(),
        }
    }
}

} // verus!
