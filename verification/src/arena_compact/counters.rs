//! Counters of what the parts of an arena take.

use vstd::prelude::*;

verus! {

/// Whether the counters are kept.
pub const USE_COUNTERS: bool = false;

/// How often each part of the arena was written, and in how many bytes.
#[derive(Clone, Copy)]
pub struct Counters {
    pub nodes: usize,
    pub nodes_size: usize,
    pub children: usize,
    pub child_mask_size: usize,
    pub lines: usize,
    pub lines_size: usize,
    pub values: usize,
    pub values_size: usize,
    pub offsets: usize,
    pub offsets_size: usize,
    pub line_data: usize,
    pub line_data_size: usize,
    pub line_data_reuse: usize,
    pub line_data_reuse_size: usize,
}

impl Default for Counters {
    fn default() -> (r: Self)
        ensures
            r == Counters::zero(),
    {
        Counters {
            nodes: 0,
            nodes_size: 0,
            children: 0,
            child_mask_size: 0,
            lines: 0,
            lines_size: 0,
            values: 0,
            values_size: 0,
            offsets: 0,
            offsets_size: 0,
            line_data: 0,
            line_data_size: 0,
            line_data_reuse: 0,
            line_data_reuse_size: 0,
        }
    }
}

impl Counters {
    /// Nothing counted.
    pub open spec fn zero() -> Counters {
        Counters {
            nodes: 0,
            nodes_size: 0,
            children: 0,
            child_mask_size: 0,
            lines: 0,
            lines_size: 0,
            values: 0,
            values_size: 0,
            offsets: 0,
            offsets_size: 0,
            line_data: 0,
            line_data_size: 0,
            line_data_reuse: 0,
            line_data_reuse_size: 0,
        }
    }

    /// A line node of `size` bytes was written.
    pub(crate) fn add_line(&mut self, size: usize)
        requires
            USE_COUNTERS ==> old(self).lines + 1 <= usize::MAX,
            USE_COUNTERS ==> old(self).lines_size + size <= usize::MAX,
        ensures
            *final(self) == (if USE_COUNTERS {
                Counters {
                    lines: (old(self).lines + 1) as usize,
                    lines_size: (old(self).lines_size + size) as usize,
                    ..*old(self)
                }
            } else {
                *old(self)
            }),
    {
        if !USE_COUNTERS {
            return ;
        }
        self.lines = self.lines + 1;
        self.lines_size = self.lines_size + size;
    }

    /// The bytes of a line were written, with their length in `size` bytes.
    pub(crate) fn add_line_data(&mut self, size: usize)
        requires
            USE_COUNTERS ==> old(self).line_data + 1 <= usize::MAX,
            USE_COUNTERS ==> old(self).line_data_size + size <= usize::MAX,
        ensures
            *final(self) == (if USE_COUNTERS {
                Counters {
                    line_data: (old(self).line_data + 1) as usize,
                    line_data_size: (old(self).line_data_size + size) as usize,
                    ..*old(self)
                }
            } else {
                *old(self)
            }),
    {
        if !USE_COUNTERS {
            return ;
        }
        self.line_data = self.line_data + 1;
        self.line_data_size = self.line_data_size + size;
    }

    /// The bytes of a line, `size` of them, were there already.
    pub(crate) fn add_line_data_reuse(&mut self, size: usize)
        requires
            USE_COUNTERS ==> old(self).line_data_reuse + 1 <= usize::MAX,
            USE_COUNTERS ==> old(self).line_data_reuse_size + size <= usize::MAX,
        ensures
            *final(self) == (if USE_COUNTERS {
                Counters {
                    line_data_reuse: (old(self).line_data_reuse + 1) as usize,
                    line_data_reuse_size: (old(self).line_data_reuse_size + size) as usize,
                    ..*old(self)
                }
            } else {
                *old(self)
            }),
    {
        if !USE_COUNTERS {
            return ;
        }
        self.line_data_reuse = self.line_data_reuse + 1;
        self.line_data_reuse_size = self.line_data_reuse_size + size;
    }

    /// A branch node of `size` bytes was written.
    pub(crate) fn add_node(&mut self, size: usize)
        requires
            USE_COUNTERS ==> old(self).nodes + 1 <= usize::MAX,
            USE_COUNTERS ==> old(self).nodes_size + size <= usize::MAX,
        ensures
            *final(self) == (if USE_COUNTERS {
                Counters {
                    nodes: (old(self).nodes + 1) as usize,
                    nodes_size: (old(self).nodes_size + size) as usize,
                    ..*old(self)
                }
            } else {
                *old(self)
            }),
    {
        if !USE_COUNTERS {
            return ;
        }
        self.nodes = self.nodes + 1;
        self.nodes_size = self.nodes_size + size;
    }

    /// An offset was written in `size` bytes.
    pub(crate) fn add_offset(&mut self, size: usize)
        requires
            USE_COUNTERS ==> old(self).offsets + 1 <= usize::MAX,
            USE_COUNTERS ==> old(self).offsets_size + size <= usize::MAX,
        ensures
            *final(self) == (if USE_COUNTERS {
                Counters {
                    offsets: (old(self).offsets + 1) as usize,
                    offsets_size: (old(self).offsets_size + size) as usize,
                    ..*old(self)
                }
            } else {
                *old(self)
            }),
    {
        if !USE_COUNTERS {
            return ;
        }
        self.offsets = self.offsets + 1;
        self.offsets_size = self.offsets_size + size;
    }

    /// A value was written in `size` bytes.
    pub(crate) fn add_value(&mut self, size: usize)
        requires
            USE_COUNTERS ==> old(self).values + 1 <= usize::MAX,
            USE_COUNTERS ==> old(self).values_size + size <= usize::MAX,
        ensures
            *final(self) == (if USE_COUNTERS {
                Counters {
                    values: (old(self).values + 1) as usize,
                    values_size: (old(self).values_size + size) as usize,
                    ..*old(self)
                }
            } else {
                *old(self)
            }),
    {
        if !USE_COUNTERS {
            return ;
        }
        self.values = self.values + 1;
        self.values_size = self.values_size + size;
    }

    /// The bytes that lead to `children` children were written in `size` bytes.
    pub(crate) fn add_children(&mut self, children: usize, size: usize)
        requires
            USE_COUNTERS ==> old(self).children + children <= usize::MAX,
            USE_COUNTERS ==> old(self).child_mask_size + size <= usize::MAX,
        ensures
            *final(self) == (if USE_COUNTERS {
                Counters {
                    children: (old(self).children + children) as usize,
                    child_mask_size: (old(self).child_mask_size + size) as usize,
                    ..*old(self)
                }
            } else {
                *old(self)
            }),
    {
        if !USE_COUNTERS {
            return ;
        }
        self.children = self.children + children;
        self.child_mask_size = self.child_mask_size + size;
    }
}

} // verus!
