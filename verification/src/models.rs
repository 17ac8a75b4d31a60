use vstd::prelude::*;

verus! {

/// A backend server: its `host:port` address and its routing weight.
#[derive(Debug, Clone)]
pub struct Backend {
    pub addr: String,
    pub weight: u32,
}

/// The mathematical value of a [`Backend`].
pub struct BackendView {
    pub addr: Seq<char>,
    pub weight: u32,
}

impl View for Backend {
    type V = BackendView;

    open spec fn view(&self) -> BackendView {
        BackendView { addr: self.addr@, weight: self.weight }
    }
}

/// Copies a backend, keeping its address and weight.
pub fn copy_backend(b: &Backend) -> (r: Backend)
    ensures
        r@ == b@,
{
    Backend { addr: b.addr.clone(), weight: b.weight }
}

} // verus!
