use vstd::prelude::*;

verus! {

/// Sentinel for values that may be temporarily moved out of their field.
pub struct Take<T> {
    data: Option<T>,
}

impl<T> View for Take<T> {
    type V = Option<T>;

    /// The held value, or `None` while it is taken out.
    open spec fn view(&self) -> Option<T> {
        self.spec_data()
    }
}

impl<T> Take<T> {
    pub closed spec fn spec_data(&self) -> Option<T> {
        self.data
    }

    /// Create a sentinel holding `data`.
    pub fn new(data: T) -> (s: Self)
        ensures
            s@ == Some(data),
    {
        Take { data: Some(data) }
    }

    /// Take the value out from the sentinel. The sentinel won't be usable until a value is put back in.
    pub fn take(&mut self) -> (value: T)
        requires
            old(self)@ is Some,
        ensures
            value == old(self)@->0,
            final(self)@ is None,
    {
        self.data.take().unwrap()
    }

    /// Put a value in the sentinel. Any old value will be lost.
    pub fn put(&mut self, data: T)
        ensures
            final(self)@ == Some(data),
    {
        self.data = Some(data);
    }

    /// Returns `true` if the sentinel is empty.
    pub fn is_taken(&self) -> (taken: bool)
        ensures
            taken == (self@ is None),
    {
        self.data.is_none()
    }

    /// Shared access to the held value.
    pub fn get(&self) -> (value: &T)
        requires
            self@ is Some,
        ensures
            *value == self@->0,
    {
        self.data.as_ref().unwrap()
    }

    /// Exclusive access to the held value.
    pub fn get_mut(&mut self) -> (value: &mut T)
        requires
            old(self)@ is Some,
        ensures
            *value == old(self)@->0,
            final(self)@ == Some(*final(value)),
    {
        self.data.as_mut().unwrap()
    }
}

/// Whether a sentinel is taken tracks the last call made on it: starting from a sentinel made by
/// `new`, through calls where `None` stands for a `take` and `Some(w)` for a `put` of `w`, each
/// state the result of the previous one, the sentinel is taken exactly when the last call was a
/// `take` (and not after `new` or a `put`).
pub proof fn law_taken_tracks_last_call<T>(states: Seq<Take<T>>, calls: Seq<Option<T>>, v: T)
    requires
        states.len() == calls.len() + 1,
        states[0]@ == Some(v),
        forall|i: int| 0 <= i < calls.len() && #[trigger] calls[i] is None ==> states[i]@ is Some && states[i + 1]@ is None,
        forall|i: int| 0 <= i < calls.len() && #[trigger] calls[i] is Some ==> states[i + 1]@ == Some(calls[i]->0),
    ensures
        (states.last()@ is None) <==> (calls.len() > 0 && calls.last() is None),
{
    if calls.len() > 0 {
        let n = calls.len() - 1;
        assert(states.last() == states[n + 1]);
    }
}

} // verus!
