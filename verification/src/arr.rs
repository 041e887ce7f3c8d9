use vstd::prelude::*;

verus! {

/// A helper for dealing with regular, fixed-size arrays: `C` slots, each
/// either uninitialised or holding a value, which enables procedural
/// initialisation one slot at a time.
pub struct Arr<T, const C: usize> {
    slots: Vec<Option<T>>,
}

impl<T, const C: usize> View for Arr<T, C> {
    type V = Seq<Option<T>>;

    /// Slot by slot: `None` where uninitialised, `Some(value)` once initialised.
    closed spec fn view(&self) -> Seq<Option<T>> {
        self.slots@
    }
}

/// Indexing an array is allowed exactly at its initialised slots, and there
/// it reads what `get` returns.
pub proof fn law_index_needs_init<T, const C: usize>(a: Arr<T, C>, i: usize)
    requires
        a.wf(),
        i < C,
    ensures
        vstd::std_specs::core::IndexSpec::index_req(&a, &i) == (a@[i as int] is Some),
{
}

/// `n` uninitialised slots.
pub open spec fn all_uninit<T>(n: nat) -> Seq<Option<T>> {
    Seq::new(n, |i: int| None::<T>)
}

impl<T, const C: usize> Arr<T, C> {
    /// The array has exactly `C` slots.
    pub open spec fn wf(&self) -> bool {
        self@.len() == C
    }

    /// An array of `C` uninitialised slots.
    pub fn new() -> (r: Self)
        ensures
            r.wf(),
            r@ == all_uninit::<T>(C as nat),
    {
        Self::new_on_stack()
    }

    /// An array of `C` uninitialised slots.
    pub fn new_on_stack() -> (r: Self)
        ensures
            r.wf(),
            r@ == all_uninit::<T>(C as nat),
    {
        let mut slots: Vec<Option<T>> = Vec::new();
        let mut k: usize = 0;
        while k < C
            invariant
                k <= C,
                slots@ == all_uninit::<T>(k as nat),
            decreases C - k,
        {
            slots.push(None);
            k = k + 1;
            assert(slots@ =~= all_uninit::<T>(k as nat));
        }
        Arr { slots }
    }

    /// An array of `C` uninitialised slots whose storage lives on the heap.
    pub fn new_on_heap() -> (r: Self)
        ensures
            r.wf(),
            r@ == all_uninit::<T>(C as nat),
    {
        Self::new_on_stack()
    }

    /// The value in slot `index`, or `None` while that slot is uninitialised.
    pub fn get(&self, index: usize) -> (r: Option<&T>)
        requires
            self.wf(),
            index < C,
        ensures
            r == (if self@[index as int] is Some { Some(&self@[index as int]->0) } else { None::<&T> }),
    {
        self.slots[index].as_ref()
    }

    /// A mutable reference to the value in slot `index`, or `None` while that
    /// slot is uninitialised.
    pub fn get_mut(&mut self, index: usize) -> (r: Option<&mut T>)
        requires
            old(self).wf(),
            index < C,
        ensures
            final(self).wf(),
            old(self)@[index as int] is Some ==> {
                &&& r is Some
                &&& *r.unwrap() == old(self)@[index as int]->0
                &&& final(self)@ == old(self)@.update(index as int, Some(*final(r.unwrap())))
            },
            old(self)@[index as int] is None ==> r is None && final(self)@ == old(self)@,
    {
        self.slots[index].as_mut()
    }

    /// Initialises slot `index` with `value`. A value the slot already held
    /// is forgotten, not dropped.
    pub fn init(&mut self, index: usize, value: T)
        requires
            old(self).wf(),
            index < C,
        ensures
            final(self).wf(),
            final(self)@ == old(self)@.update(index as int, Some(value)),
    {
        let mut replaced = Some(value);
        std::mem::swap(&mut replaced, &mut self.slots[index]);
        crate::std_calls::leak(replaced);
    }

    /// The slots as a boxed slice, `None` where uninitialised.
    pub fn into_boxed_slice(self) -> (r: Box<[Option<T>]>)
        ensures
            r@ == self@,
    {
        crate::std_calls::into_boxed(self.slots)
    }

    /// The slots as a slice, `None` where uninitialised.
    pub fn as_raw_slice(&self) -> (r: &[Option<T>])
        ensures
            r@ == self@,
    {
        self.slots.as_slice()
    }

    /// The slots as a mutable slice, `None` where uninitialised; what is
    /// written through it is what the array holds afterwards.
    pub fn as_raw_slice_mut(&mut self) -> (r: &mut [Option<T>])
        ensures
            r@ == old(self)@,
            final(r)@ == final(self)@,
    {
        self.slots.as_mut_slice()
    }
}

impl<T, const C: usize> Default for Arr<T, C> {
    /// An array of `C` uninitialised slots.
    fn default() -> (r: Self)
        ensures
            r.wf(),
            r@ == all_uninit::<T>(C as nat),
    {
        Self::new()
    }
}

impl<T, const C: usize> core::ops::Index<usize> for Arr<T, C> {
    type Output = T;

    /// The value in slot `index`; callers show that the slot is initialised.
    fn index(&self, index: usize) -> (r: &T)
        ensures
            *r == self@[index as int]->0,
    {
        self.slots[index].as_ref().unwrap()
    }
}

impl<T, const C: usize> vstd::std_specs::core::IndexSpecImpl<usize> for Arr<T, C> {
    open spec fn index_req(&self, index: &usize) -> bool {
        self.wf() && *index < C && self@[*index as int] is Some
    }
}

} // verus!
