use vstd::prelude::*;

verus! {

/// A wrapper around `Box<T>` that deliberately leaks the contents of the inner box when it is
/// dropped. Trait objects that share their data with another owner are kept in it, so that the
/// data is not freed twice; the registry that holds them lives until the end of the program.
pub struct WeakBox<T: ?Sized> {
    item: Option<Box<T>>,
}

/// `Box::leak`: gives up ownership of the box without freeing its contents. It does not fail.
#[verifier::external_body]
fn leak_box<T: ?Sized>(boxed: Box<T>)
    opens_invariants none
    no_unwind
{
    Box::leak(boxed);
}

impl<T: ?Sized> WeakBox<T> {
    /// The box held, while it is there.
    pub closed spec fn boxed(&self) -> Option<Box<T>> {
        self.item
    }

    /// Wraps the box.
    pub fn new(boxed: Box<T>) -> (weak: WeakBox<T>)
        ensures
            weak.boxed() == Some(boxed),
    {
        WeakBox { item: Some(boxed) }
    }

    /// The box held.
    pub fn get(&self) -> (boxed: &Box<T>)
        requires
            self.boxed() is Some,
        ensures
            *boxed == self.boxed()->Some_0,
    {
        self.item.as_ref().unwrap()
    }

    /// The box held, for changes.
    pub fn get_mut(&mut self) -> (boxed: &mut Box<T>)
        requires
            old(self).boxed() is Some,
        ensures
            *boxed == old(self).boxed()->Some_0,
            final(self).boxed() == Some(*final(boxed)),
    {
        self.item.as_mut().unwrap()
    }
}

impl<T: ?Sized> Drop for WeakBox<T> {
    /// Leaks the inner box, since it does not own the data.
    fn drop(&mut self)
        opens_invariants none
        no_unwind
    {
        let mut item: Option<Box<T>> = None;
        std::mem::swap(&mut item, &mut self.item);
        match item {
            Some(boxed) => leak_box(boxed),
            None => {},
        }
    }
}

} // verus!
