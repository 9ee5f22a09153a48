//! The tools on offer, by name, and which of them are bound to the primary
//! and the secondary slot.
use vstd::prelude::*;

verus! {

/// The tools on offer and the positions of those bound to the two slots.
pub struct ToolRegistry<F> {
    tools: Vec<(String, F)>,
    primary_idx: usize,
    secondary_idx: usize,
}

impl<F: Clone> ToolRegistry<F> {
    pub closed spec fn entries(&self) -> Seq<(String, F)> {
        self.tools@
    }

    pub closed spec fn primary_spec(&self) -> usize {
        self.primary_idx
    }

    pub closed spec fn secondary_spec(&self) -> usize {
        self.secondary_idx
    }

    /// Both slots point at a tool, where there is one.
    pub open spec fn wf(&self) -> bool {
        self.entries().len() > 0 ==> self.primary_spec() < self.entries().len() && self.secondary_spec() < self.entries().len()
    }

    /// The first tool is primary, the second (or the first, if it is
    /// alone) secondary.
    pub fn new(tools: Vec<(String, F)>) -> (r: Self)
        ensures
            r.wf(),
            r.entries() == tools@,
            r.primary_spec() == 0,
            r.secondary_spec() == if tools@.len() > 1 { 1usize } else { 0usize },
    {
        let secondary_idx = if tools.len() > 1 { 1 } else { 0 };
        Self { tools, primary_idx: 0, secondary_idx }
    }

    pub fn primary_idx(&self) -> (i: usize)
        ensures
            i == self.primary_spec(),
    {
        self.primary_idx
    }

    pub fn secondary_idx(&self) -> (i: usize)
        ensures
            i == self.secondary_spec(),
    {
        self.secondary_idx
    }

    /// The name of the tool at `idx`, or `"<unknown>"` where there is none.
    pub fn name(&self, idx: usize) -> (s: &str)
        ensures
            idx < self.entries().len() ==> s@ == self.entries()[idx as int].0@,
            idx >= self.entries().len() ==> s@ == "<unknown>"@,
    {
        if idx < self.tools.len() {
            self.tools[idx].0.as_str()
        } else {
            "<unknown>"
        }
    }

    /// The names of the tools, in order.
    pub fn names(&self) -> (v: Vec<&str>)
        ensures
            v@.len() == self.entries().len(),
            forall|i: int| 0 <= i < v@.len() ==> #[trigger] v@[i]@ == self.entries()[i].0@,
    {
        let mut v: Vec<&str> = Vec::new();
        let mut i: usize = 0;
        while i < self.tools.len()
            invariant
                i <= self.tools@.len(),
                v@.len() == i,
                forall|k: int| 0 <= k < i ==> #[trigger] v@[k]@ == self.tools@[k].0@,
            decreases self.tools@.len() - i,
        {
            v.push(self.tools[i].0.as_str());
            i = i + 1;
        }
        v
    }

    /// A copy of the factory of the primary tool; there must be a tool.
    pub fn primary_factory(&self) -> (f: F)
        requires
            self.wf(),
            self.entries().len() > 0,
        ensures
            cloned(self.entries()[self.primary_spec() as int].1, f),
    {
        self.tools[self.primary_idx].1.clone()
    }

    /// A copy of the factory of the secondary tool; there must be a tool.
    pub fn secondary_factory(&self) -> (f: F)
        requires
            self.wf(),
            self.entries().len() > 0,
        ensures
            cloned(self.entries()[self.secondary_spec() as int].1, f),
    {
        self.tools[self.secondary_idx].1.clone()
    }

    /// Binds the tool at `idx` to the primary slot; returns a copy of its
    /// factory if that changed the slot.
    pub fn set_primary_idx(&mut self, idx: usize) -> (r: Option<F>)
        requires
            old(self).wf(),
        ensures
            final(self).wf(),
            final(self).entries() == old(self).entries(),
            final(self).secondary_spec() == old(self).secondary_spec(),
            ({
                let changed = idx < old(self).entries().len() && idx != old(self).primary_spec();
                &&& changed ==> final(self).primary_spec() == idx && (r matches Some(f) && cloned(
                    old(self).entries()[idx as int].1,
                    f,
                ))
                &&& !changed ==> final(self).primary_spec() == old(self).primary_spec() && r is None
            }),
    {
        if idx < self.tools.len() && idx != self.primary_idx {
            self.primary_idx = idx;
            Some(self.tools[idx].1.clone())
        } else {
            None
        }
    }

    /// Binds the tool at `idx` to the secondary slot; returns a copy of its
    /// factory if that changed the slot.
    pub fn set_secondary_idx(&mut self, idx: usize) -> (r: Option<F>)
        requires
            old(self).wf(),
        ensures
            final(self).wf(),
            final(self).entries() == old(self).entries(),
            final(self).primary_spec() == old(self).primary_spec(),
            ({
                let changed = idx < old(self).entries().len() && idx != old(self).secondary_spec();
                &&& changed ==> final(self).secondary_spec() == idx && (r matches Some(f) && cloned(
                    old(self).entries()[idx as int].1,
                    f,
                ))
                &&& !changed ==> final(self).secondary_spec() == old(self).secondary_spec() && r is None
            }),
    {
        if idx < self.tools.len() && idx != self.secondary_idx {
            self.secondary_idx = idx;
            Some(self.tools[idx].1.clone())
        } else {
            None
        }
    }
}

} // verus!
