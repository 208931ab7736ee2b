use vstd::prelude::*;

verus! {

/// Where a formula node stands in its expansion.
#[derive(PartialEq, Eq, Debug, Clone, Copy, Structural)]
pub enum FormulaState {
    /// Waiting to be expanded.
    Active,
    /// Fully expanded, or a literal kept only for contradiction search.
    Inactive,
    /// A necessity formula whose world has no accessible world yet.
    WaitingNewWorlds,
    /// The terminal node of a refuted branch.
    Closed,
}

/// A node of the proof tree: a formula's text, the world it is evaluated at, and its state.
#[derive(Debug)]
pub struct Formula {
    formula: String,
    world: usize,
    state: FormulaState,
}

impl Formula {
    pub closed spec fn text(&self) -> Seq<char> {
        self.formula@
    }

    pub closed spec fn world_id(&self) -> usize {
        self.world
    }

    pub closed spec fn status(&self) -> FormulaState {
        self.state
    }

    /// A fresh, active node for `formula` at `world`.
    pub fn new(formula: String, world: usize) -> (r: Formula)
        ensures
            r.text() == formula@,
            r.world_id() == world,
            r.status() == FormulaState::Active,
    {
        Formula { formula, world, state: FormulaState::Active }
    }

    pub fn state(&self) -> (r: &FormulaState)
        ensures
            *r == self.status(),
    {
        &self.state
    }

    pub fn world(&self) -> (r: usize)
        ensures
            r == self.world_id(),
    {
        self.world
    }

    pub fn formula(&self) -> (r: &String)
        ensures
            r@ == self.text(),
    {
        &self.formula
    }

    /// Sets the state, keeping text and world.
    pub fn set_state(&mut self, state: FormulaState)
        ensures
            final(self).status() == state,
            final(self).text() == old(self).text(),
            final(self).world_id() == old(self).world_id(),
    {
        self.state = state;
    }

    pub fn deactivate(&mut self)
        ensures
            final(self).status() == FormulaState::Inactive,
            final(self).text() == old(self).text(),
            final(self).world_id() == old(self).world_id(),
    {
        self.set_state(FormulaState::Inactive);
    }

    pub fn wait(&mut self)
        ensures
            final(self).status() == FormulaState::WaitingNewWorlds,
            final(self).text() == old(self).text(),
            final(self).world_id() == old(self).world_id(),
    {
        self.set_state(FormulaState::WaitingNewWorlds);
    }

    pub fn close(&mut self)
        ensures
            final(self).status() == FormulaState::Closed,
            final(self).text() == old(self).text(),
            final(self).world_id() == old(self).world_id(),
    {
        self.set_state(FormulaState::Closed);
    }
}

/// A possible world; its id matches its index in the world graph.
#[derive(Debug)]
pub struct World {
    id: usize,
    label: Option<String>,
}

impl World {
    pub closed spec fn spec_id(&self) -> usize {
        self.id
    }

    pub closed spec fn spec_label(&self) -> Option<Seq<char>> {
        match self.label {
            Some(l) => Some(l@),
            None => None,
        }
    }

    /// An unlabelled world with the given id.
    pub fn new(id: usize) -> (r: World)
        ensures
            r.spec_id() == id,
            r.spec_label() is None,
    {
        World { id, label: None }
    }

    pub fn id(&self) -> (r: usize)
        ensures
            r == self.spec_id(),
    {
        self.id
    }

    pub fn label(&self) -> (r: &Option<String>)
        ensures
            match r {
                Some(l) => self.spec_label() == Some(l@),
                None => self.spec_label() is None,
            },
    {
        &self.label
    }
}

} // verus!
