use vstd::prelude::*;

verus! {

/// A value that is computed on first use and kept afterwards.
#[verifier::reject_recursive_types(T)]
pub struct Thunk<T, F: FnOnce() -> T> {
    data: ThunkData<T, F>,
}

/// The state of a thunk: its value, or the computation that will produce it.
#[verifier::reject_recursive_types(T)]
pub enum ThunkData<T, F: FnOnce() -> T> {
    Present(T),
    Pending(Option<F>),
}

impl<T, F: FnOnce() -> T> Thunk<T, F> {
    /// The thunk's state.
    pub closed spec fn data(&self) -> ThunkData<T, F> {
        self.data
    }

    /// A usable thunk holds a value or a computation that has not run yet.
    pub open spec fn wf(&self) -> bool {
        !(self.data() matches ThunkData::Pending(None))
    }

    /// The thunk can be forced: it holds a value, or its computation may be called.
    pub open spec fn can_force(&self) -> bool {
        match self.data() {
            ThunkData::Present(_) => true,
            ThunkData::Pending(Some(f)) => call_requires(f, ()),
            ThunkData::Pending(None) => false,
        }
    }

    /// After forcing, `v` is the thunk's value: the value it held, or one its
    /// computation may return.
    pub open spec fn forces_to(&self, v: T) -> bool {
        match self.data() {
            ThunkData::Present(p) => v == p,
            ThunkData::Pending(Some(f)) => call_ensures(f, (), v),
            ThunkData::Pending(None) => false,
        }
    }

    /// Runs the pending computation, if any, and keeps its result.
    fn force(&mut self)
        requires
            old(self).can_force(),
        ensures
            final(self).data() matches ThunkData::Present(v) && old(self).forces_to(v),
    {
        if let ThunkData::Pending(func) = &mut self.data {
            let f = func.take().unwrap();
            let v = f();
            self.data = ThunkData::Present(v);
        }
    }

    /// The value, computing it first if it is still pending.
    pub fn get(&mut self) -> (r: &T)
        requires
            old(self).can_force(),
        ensures
            old(self).forces_to(*r),
            final(self).data() == ThunkData::<T, F>::Present(*r),
    {
        self.force();
        match &self.data {
            ThunkData::Present(p) => p,
            ThunkData::Pending(_) => {
                vstd::pervasive::unreached()
            },
        }
    }

    /// The value, computing it first if it is still pending, for modification in place.
    pub fn get_mut(&mut self) -> (r: &mut T)
        requires
            old(self).can_force(),
        ensures
            old(self).forces_to(*r),
            final(self).data() == ThunkData::<T, F>::Present(*final(r)),
    {
        self.force();
        match &mut self.data {
            ThunkData::Present(p) => p,
            ThunkData::Pending(_) => vstd::pervasive::unreached(),
        }
    }

    /// A thunk that already holds its value.
    pub fn present(it: T) -> (r: Thunk<T, F>)
        ensures
            r.data() == ThunkData::<T, F>::Present(it),
            r.wf(),
    {
        Thunk { data: ThunkData::Present(it) }
    }

    /// A thunk whose value `it` computes on first use.
    pub fn lazy(it: F) -> (r: Thunk<T, F>)
        ensures
            r.data() == ThunkData::<T, F>::Pending(Some(it)),
            r.wf(),
    {
        Thunk { data: ThunkData::Pending(Some(it)) }
    }
}

/// Once forced, a thunk keeps its value: forcing it again gives that same value.
pub proof fn lemma_forced_thunk_stays<T, F: FnOnce() -> T>(t: Thunk<T, F>, v: T)
    requires
        t.data() == ThunkData::<T, F>::Present(v),
    ensures
        t.wf(),
        t.can_force(),
        forall|w: T| t.forces_to(w) ==> w == v,
{
}

} // verus!
