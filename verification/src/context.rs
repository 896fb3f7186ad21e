//! The settings that the command-line flags turn on.
use vstd::prelude::*;

verus! {

/// The flags in effect for a run.
#[derive(Debug, Clone, Copy)]
pub struct Context {
    force: bool,
    dry_run: bool,
    verbose: bool,
}

/// The flags of a [`Context`].
pub struct ContextView {
    pub force: bool,
    pub dry_run: bool,
    pub verbose: bool,
}

impl View for Context {
    type V = ContextView;

    closed spec fn view(&self) -> ContextView {
        ContextView { force: self.force, dry_run: self.dry_run, verbose: self.verbose }
    }
}

impl Context {
    /// All flags off.
    pub fn new() -> (r: Self)
        ensures
            r@ == (ContextView { force: false, dry_run: false, verbose: false }),
    {
        Context { force: false, dry_run: false, verbose: false }
    }

    /// Flips the force flag.
    pub fn toggle_force(&mut self)
        ensures
            final(self)@ == (ContextView { force: !old(self)@.force, ..old(self)@ }),
    {
        self.force = !self.force;
    }

    /// Flips the dry-run flag.
    pub fn toggle_dry_run(&mut self)
        ensures
            final(self)@ == (ContextView { dry_run: !old(self)@.dry_run, ..old(self)@ }),
    {
        self.dry_run = !self.dry_run;
    }

    /// Flips the verbose flag.
    pub fn toggle_verbose(&mut self)
        ensures
            final(self)@ == (ContextView { verbose: !old(self)@.verbose, ..old(self)@ }),
    {
        self.verbose = !self.verbose;
    }

    pub fn force(&self) -> (r: bool)
        ensures
            r == self@.force,
    {
        self.force
    }

    pub fn dry_run(&self) -> (r: bool)
        ensures
            r == self@.dry_run,
    {
        self.dry_run
    }

    pub fn verbose(&self) -> (r: bool)
        ensures
            r == self@.verbose,
    {
        self.verbose
    }
}

} // verus!
