use vstd::prelude::*;

verus! {

#[verifier::external_type_specification]
#[verifier::external_body]
pub struct ExRedisError(redis::RedisError);

/// What a lookup delivers to its waiter: the value, none when the store holds no
/// such key, or the store's error.
pub type LookupResult = Result<Option<String>, redis::RedisError>;

/// Relies on `RedisError`'s `description` (of `std::error::Error`): the short text
/// that the error carries. Nothing is known of it here.
#[verifier::external_body]
#[allow(deprecated)]
fn error_description(e: &redis::RedisError) -> String {
    std::error::Error::description(e).to_string()
}

/// The text a waiter receives for `res`: the value or none as the store gave it,
/// and for an error its description.
pub fn outcome_text(res: &LookupResult) -> (r: Option<String>)
    ensures
        match res {
            Ok(v) => r == *v,
            Err(_) => r.is_some(),
        },
{
    match res {
        Ok(Some(v)) => Some(v.clone()),
        Ok(None) => None,
        Err(e) => Some(error_description(e)),
    }
}

/// The write-once cell in which the worker leaves a lookup's result for its waiter.
pub struct ResultSlot {
    result: Option<LookupResult>,
}

impl View for ResultSlot {
    type V = Option<LookupResult>;

    closed spec fn view(&self) -> Option<LookupResult> {
        self.result
    }
}

impl ResultSlot {
    /// A slot that holds no result yet.
    pub fn new() -> (r: ResultSlot)
        ensures
            r@.is_none(),
    {
        ResultSlot { result: None }
    }

    pub fn is_complete(&self) -> (r: bool)
        ensures
            r == self@.is_some(),
    {
        self.result.is_some()
    }

    /// Stores the result. A slot is completed once only.
    pub fn complete(&mut self, res: LookupResult)
        requires
            old(self)@.is_none(),
        ensures
            final(self)@ == Some(res),
    {
        self.result = Some(res);
    }

    /// The stored result, exactly as the slot was completed with it.
    pub fn result(&self) -> (r: &LookupResult)
        requires
            self@.is_some(),
        ensures
            Some(*r) == self@,
    {
        self.result.as_ref().unwrap()
    }

    /// The text of the stored result, as `outcome_text` gives it.
    pub fn result_text(&self) -> (r: Option<String>)
        requires
            self@.is_some(),
        ensures
            match self@.unwrap() {
                Ok(v) => r == v,
                Err(_) => r.is_some(),
            },
    {
        match &self.result {
            Some(res) => outcome_text(res),
            None => None,
        }
    }
}

/// A lookup of `key`, with the handle through which its result reaches the caller
/// that waits for it.
pub struct RedisRequest<C> {
    pub key: String,
    pub completion: C,
}

impl<C> RedisRequest<C> {
    pub fn new(key: String, completion: C) -> (r: RedisRequest<C>)
        ensures
            r.key == key,
            r.completion == completion,
    {
        RedisRequest { key, completion }
    }
}

/// One item of the worker's queue: a lookup, or the signal to stop.
pub enum Message<C> {
    Request(RedisRequest<C>),
    Shutdown,
}

} // verus!
