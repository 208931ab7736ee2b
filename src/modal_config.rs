use vstd::prelude::*;

verus! {

/// Which frame properties the accessibility relation is closed under: reflexive (`rho`),
/// symmetric (`sigma`), transitive (`tau`) and extendable, i.e. serial (`eta`).
#[derive(Debug, Clone, Copy, PartialEq, Eq, Structural)]
pub struct ModalOptions {
    pub rho: bool,
    pub sigma: bool,
    pub tau: bool,
    pub eta: bool,
}

impl ModalOptions {
    pub fn new(rho: bool, sigma: bool, tau: bool, eta: bool) -> (r: ModalOptions)
        ensures
            r == (ModalOptions { rho, sigma, tau, eta }),
    {
        ModalOptions { rho, sigma, tau, eta }
    }

    /// Every property selected.
    pub fn all_true() -> (r: ModalOptions)
        ensures
            r == (ModalOptions { rho: true, sigma: true, tau: true, eta: true }),
    {
        ModalOptions { rho: true, sigma: true, tau: true, eta: true }
    }

    /// The frame of S5: reflexive, symmetric and transitive.
    pub fn new_default() -> (r: ModalOptions)
        ensures
            r == (ModalOptions { rho: true, sigma: true, tau: true, eta: false }),
    {
        ModalOptions { rho: true, sigma: true, tau: true, eta: false }
    }

    pub fn rho(&self) -> (r: bool)
        ensures
            r == self.rho,
    {
        self.rho
    }

    pub fn sigma(&self) -> (r: bool)
        ensures
            r == self.sigma,
    {
        self.sigma
    }

    pub fn tau(&self) -> (r: bool)
        ensures
            r == self.tau,
    {
        self.tau
    }

    pub fn eta(&self) -> (r: bool)
        ensures
            r == self.eta,
    {
        self.eta
    }
}

} // verus!
