//! The interface between the kernel and the modules it loads.
use crate::boot_info::BootInfo;
use crate::heap::{allocation, can_release, deallocation, AllocError, FreeListHeapAllocator};
use vstd::prelude::*;

verus! {

/// A module that the kernel has loaded, and the interface it offers.
#[derive(Debug, Clone, Copy)]
pub struct ModuleHandle<'a> {
    pub interface: (usize, usize),
    pub module_name: &'a str,
    pub interface_name: &'a str,
}

/// What must happen before a module's initialisation is tried again.
#[derive(Debug)]
pub struct RerunWhen<'a> {
    pub event: Event<'a>,
}

/// A condition on the set of loaded modules and interfaces.
#[derive(Debug)]
pub enum Event<'a> {
    IsLoadedInterface(&'a str),
    IsLoadedModule(&'a str),
    IsLoadedOneOfInterfaces(&'a [&'a str]),
    IsLoadedOneOfModules(&'a [&'a str]),
    And(Box<Event<'a>>, Box<Event<'a>>),
    Or(Box<Event<'a>>, Box<Event<'a>>),
}

/// Why a module's initialisation did not succeed.
#[derive(Debug)]
pub enum InitErr<'a> {
    Rerun(RerunWhen<'a>),
    Error(&'a str),
}

/// What a module's successful initialisation returns: its interface, and when
/// to run it again, if ever.
pub struct InitOk<'a> {
    pub interface: (usize, usize),
    pub rerun: Option<RerunWhen<'a>>,
}

/// The allocator a module allocates from: the kernel's heap allocator, once
/// the kernel has handed it over.
pub struct AllocatorWrapper(pub Option<FreeListHeapAllocator>);

impl AllocatorWrapper {
    /// Whether the kernel has handed its allocator over, in a sound state.
    pub open spec fn ready(&self) -> bool {
        self.0 is Some && self.0->0.wf()
    }

    /// A wrapper that has no allocator yet.
    pub fn non_init() -> (w: Self)
        ensures
            w.0 is None,
    {
        Self(None)
    }

    /// Allocates `size` bytes aligned to `align` from the kernel's allocator.
    pub fn allocate(&mut self, size: usize, align: usize) -> (r: Result<(usize, usize), AllocError>)
        requires
            old(self).ready(),
            0 < align <= usize::MAX / 2 + 1,
        ensures
            final(self).0 is Some,
            allocation(old(self).0->0, final(self).0->0, size, align, r),
    {
        let mut heap = self.0.take().unwrap();
        let r = heap.allocate(size, align);
        self.0 = Some(heap);
        r
    }

    /// Gives the block of `size` bytes at `address` back to the kernel's
    /// allocator.
    pub fn deallocate(&mut self, address: usize, size: usize)
        requires
            old(self).ready(),
            can_release(old(self).0->0, address, size),
        ensures
            final(self).0 is Some,
            deallocation(old(self).0->0, final(self).0->0, address, size),
    {
        let mut heap = self.0.take().unwrap();
        heap.deallocate(address, size);
        self.0 = Some(heap);
    }

    /// Allocates `size` bytes aligned to `align` and returns their address, or
    /// 0 (a null pointer) when no free region has room for the block.
    pub fn alloc_address(&mut self, size: usize, align: usize) -> (p: usize)
        requires
            old(self).ready(),
            0 < align <= usize::MAX / 2 + 1,
        ensures
            final(self).0 is Some,
            exists|r: Result<(usize, usize), AllocError>|
                allocation(old(self).0->0, final(self).0->0, size, align, r) && p == match r {
                    Ok(b) => b.0,
                    Err(_) => 0usize,
                },
    {
        let r = self.allocate(size, align);
        assert(allocation(old(self).0->0, final(self).0->0, size, align, r));
        match r {
            Ok((p, _)) => p,
            Err(_) => 0,
        }
    }

    /// Gives back the block of `size` bytes at `ptr`.
    pub fn dealloc(&mut self, ptr: usize, size: usize)
        requires
            old(self).ready(),
            can_release(old(self).0->0, ptr, size),
        ensures
            final(self).0 is Some,
            deallocation(old(self).0->0, final(self).0->0, ptr, size),
    {
        self.deallocate(ptr, size)
    }
}

/// A module that the kernel loads: it sets itself up from the modules already
/// loaded and the boot information, and stops.
pub trait Module {
    fn init(&self, loaded_modules: &[ModuleHandle], boot_infos: BootInfo) -> Result<InitOk<'_>, InitErr<'_>>;

    fn stop(&self);
}

/// A module as the kernel finds it in the module's image.
#[derive(Clone, Copy)]
pub struct ModuleWrapper<'a>(pub &'a dyn Module);

/// The interface of the demonstration module: it holds a number and adds
/// numbers to it.
pub trait DemoModule {
    /// The number the module holds.
    spec fn held(&self) -> int;

    /// The held number plus `number`.
    fn update_number(&self, number: usize) -> (r: usize)
        requires
            self.held() + number <= usize::MAX,
        ensures
            r == self.held() + number,
    ;
}

/// The demonstration module, holding its number.
pub struct DemoModuleMod(pub usize);

impl DemoModuleMod {
    /// The state to save: the held number.
    pub fn save_state(&self) -> (state: usize)
        ensures
            state == self.0,
    {
        self.0
    }

    /// Restores a saved state: a number (`Some`) is held from now on; any other
    /// state (`None`) is a type error, and the held number stays.
    pub fn restore_state(&mut self, state: Option<usize>) -> (r: Result<(), &'static str>)
        ensures
            match state {
                Some(v) => r is Ok && final(self).0 == v,
                None => r == Err::<(), &'static str>("Type error") && final(self).0 == old(self).0,
            },
    {
        match state {
            Some(v) => {
                self.0 = v;
                Ok(())
            },
            None => Err("Type error"),
        }
    }
}

impl DemoModule for DemoModuleMod {
    open spec fn held(&self) -> int {
        self.0 as int
    }

    fn update_number(&self, number: usize) -> (r: usize) {
        self.0 + number
    }
}

} // verus!
