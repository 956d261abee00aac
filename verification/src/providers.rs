use vstd::prelude::*;
use vstd::string::StringExecFns;
use crate::error::Error;

verus! {

/// A provider's optional working state: a simple holder around an optional
/// value that a provider fills and reads during a session.
#[derive(Debug)]
pub struct Context<T> {
    inner: Option<T>,
}

impl<T> Context<T> {
    /// What the context holds.
    pub closed spec fn value(&self) -> Option<T> {
        self.inner
    }

    /// A context holding the given value.
    pub fn new(value: T) -> (r: Self)
        ensures
            r.value() == Some(value),
    {
        Context { inner: Some(value) }
    }

    /// Replaces the held value.
    pub fn set(&mut self, value: T)
        ensures
            final(self).value() == Some(value),
    {
        self.inner = Some(value);
    }

    /// The held value, as a mutable option.
    pub fn get_mut(&mut self) -> (r: &mut Option<T>)
        ensures
            *r == old(self).value(),
            final(self).value() == *final(r),
    {
        &mut self.inner
    }

    /// The held value, as an option.
    pub fn get(&self) -> (r: &Option<T>)
        ensures
            *r == self.value(),
    {
        &self.inner
    }

    /// A reference to the held value, when there is one.
    pub fn as_ref(&self) -> (r: Option<&T>)
        ensures
            match r {
                Some(v) => self.value() == Some(*v),
                None => self.value() is None,
            },
    {
        self.inner.as_ref()
    }

    /// A mutable reference to the held value, when there is one.
    pub fn as_mut(&mut self) -> (r: Option<&mut T>)
        ensures
            match r {
                Some(v) => old(self).value() == Some(*v) && final(self).value() == Some(*final(v)),
                None => old(self).value() is None && final(self).value() is None,
            },
    {
        self.inner.as_mut()
    }

    /// Whether the context holds nothing.
    pub fn is_empty(&self) -> (r: bool)
        ensures
            r == (self.value() is None),
    {
        self.inner.is_none()
    }

    /// Whether the context holds a value.
    pub fn is_some(&self) -> (r: bool)
        ensures
            r == (self.value() is Some),
    {
        self.inner.is_some()
    }

    /// Fails with a configuration error when the context holds nothing.
    pub fn ensure_valid(&mut self) -> (r: Result<&mut Self, Error>)
        ensures
            match r {
                Ok(me) => old(self).value() is Some && *me == *old(self) && *final(self)
                    == *final(me),
                Err(e) => old(self).value() is None && *final(self) == *old(self) && (
                e matches Error::Config(m) && m@ == "Context is empty"@),
            },
    {
        if self.is_empty() {
            let mut msg = String::new();
            msg.append("Context is empty");
            proof {
                assert(msg@ =~= "Context is empty"@);
            }
            Err(Error::Config(msg))
        } else {
            Ok(self)
        }
    }
}

impl<T> Default for Context<T> {
    /// An empty context.
    fn default() -> (r: Self)
        ensures
            r.value() is None,
    {
        Context { inner: None }
    }
}

impl<T: Clone> Clone for Context<T> {
    fn clone(&self) -> (r: Self) {
        Context {
            inner: match &self.inner {
                Some(v) => Some(v.clone()),
                None => None,
            },
        }
    }
}

/// The name and description a provider presents.
#[derive(Debug, Clone)]
pub struct ProviderInfo {
    pub name: String,
    pub description: String,
}

} // verus!
