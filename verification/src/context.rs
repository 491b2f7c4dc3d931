//! Where the walker currently stands: a chain of per-node frames.

use crate::str::Str;
use vstd::prelude::*;

verus! {

/// The cell configuration in force at a node: how many 32-bit cells make
/// one address, one size, and one interrupt specifier.
#[derive(Clone, Copy, Debug, PartialEq, Eq, Structural)]
pub struct Cells {
    /// Cells per address in a `reg` entry.
    pub address: u32,
    /// Cells per size in a `reg` entry.
    pub size: u32,
    /// Cells per interrupt specifier.
    pub interrupt: u32,
}

/// The configuration in force where no ancestor declared one.
pub open spec fn spec_default_cells() -> Cells {
    Cells { address: 2, size: 1, interrupt: 1 }
}

impl Default for Cells {
    /// The default configuration: two address cells, one size cell, one
    /// interrupt cell.
    fn default() -> (r: Self)
        ensures
            r == spec_default_cells(),
    {
        Cells { address: 2, size: 1, interrupt: 1 }
    }
}

impl Cells {
    /// How many cells one `reg` entry occupies.
    pub fn reg_size(&self) -> (r: u64)
        ensures
            r == self.address + self.size,
    {
        self.address as u64 + self.size as u64
    }
}

/// A node's place in the tree during traversal: its name, the cell
/// configuration its parent established for it, and a borrowed link to the
/// parent's frame. The chain lives only on the traversal's call stack.
pub struct Context<'a> {
    name: Str<'a>,
    cells: Cells,
    level: usize,
    parent: Option<&'a Context<'a>>,
}

impl<'a> Context<'a> {
    /// The name of the node this frame stands for.
    pub closed spec fn spec_name(&self) -> Seq<u8> {
        self.name@
    }

    /// The cell configuration the parent established for this node; the
    /// node's own `reg` is decoded with it.
    pub closed spec fn spec_cells(&self) -> Cells {
        self.cells
    }

    /// The stored depth: how many frames stand above this one.
    pub closed spec fn spec_level(&self) -> int {
        self.level as int
    }

    /// Whether this frame is the root frame.
    pub closed spec fn spec_is_root(&self) -> bool {
        self.parent is None
    }

    /// The rendered path: `/` and the name of every frame below the root,
    /// in root-first order. The root frame itself contributes nothing.
    pub closed spec fn spec_path(&self) -> Seq<u8>
        decreases *self,
    {
        match self.parent {
            None => seq![],
            Some(p) => p.spec_path() + seq![47u8] + self.name@,
        }
    }

    /// The root frame: empty name, default cells, level zero.
    pub fn root() -> (c: Context<'a>)
        ensures
            c.spec_name() == Seq::<u8>::empty(),
            c.spec_cells() == spec_default_cells(),
            c.spec_level() == 0,
            c.spec_is_root(),
            c.spec_path() == Seq::<u8>::empty(),
    {
        let c = Context {
            name: Str(&[]),
            cells: Cells { address: 2, size: 1, interrupt: 1 },
            level: 0,
            parent: None,
        };
        proof {
            assert(c.spec_name() =~= Seq::<u8>::empty());
        }
        c
    }

    /// The depth of this frame; the root's direct children are at zero.
    pub fn level(&self) -> (r: usize)
        ensures
            r == self.spec_level(),
    {
        self.level
    }

    /// Whether this is the root frame, which is never reported to a
    /// visitor as a node of its own.
    pub fn is_root(&self) -> (r: bool)
        ensures
            r == self.spec_is_root(),
    {
        self.parent.is_none()
    }

    /// The name of the node this frame stands for.
    pub fn name(&self) -> (r: Str<'a>)
        ensures
            r@ == self.spec_name(),
    {
        self.name
    }

    /// The cell configuration this node's `reg` is decoded with.
    pub(crate) fn cells(&self) -> (r: Cells)
        ensures
            r == self.spec_cells(),
    {
        self.cells
    }

    /// Grows a child frame borrowing this one.
    pub(crate) fn grow(&'a self, name: Str<'a>, cells: Cells) -> (c: Context<'a>)
        requires
            self.spec_level() < usize::MAX,
        ensures
            c.spec_name() == name@,
            c.spec_cells() == cells,
            c.spec_level() == self.spec_level() + 1,
            !c.spec_is_root(),
            c.spec_path() == self.spec_path() + seq![47u8] + name@,
    {
        Context { name, cells, level: self.level + 1, parent: Some(self) }
    }

    /// Renders the path into `buf`.
    ///
    /// `Ok(n)` says the path is `n` bytes long and stands in `buf[..n]`;
    /// the rest of the buffer is untouched. `Err(n)` says the buffer is
    /// too short: `n` is exactly the buffer's length, and the buffer holds
    /// that much of the path's beginning.
    pub fn fmt_path(&self, buf: &mut [u8]) -> (r: Result<usize, usize>)
        ensures
            final(buf)@.len() == old(buf)@.len(),
            match r {
                Ok(n) => n == self.spec_path().len() && n <= old(buf)@.len() && final(buf)@
                    == self.spec_path() + old(buf)@.skip(n as int),
                Err(n) => n == old(buf)@.len() && self.spec_path().len() > old(buf)@.len()
                    && final(buf)@ == self.spec_path().take(old(buf)@.len() as int),
            },
        decreases *self,
    {
        let parent = match self.parent {
            None => {
                proof {
                    assert(buf@ =~= self.spec_path() + old(buf)@.skip(0));
                }
                return Ok(0);
            },
            Some(p) => p,
        };
        let len = match parent.fmt_path(buf) {
            Ok(len) => len,
            Err(n) => {
                proof {
                    assert(self.spec_path().take(buf@.len() as int) =~= parent.spec_path().take(
                        buf@.len() as int,
                    ));
                }
                return Err(n);
            },
        };
        if buf.len() - len == 0 {
            proof {
                assert(buf@ =~= self.spec_path().take(buf@.len() as int));
            }
            return Err(buf.len());
        }
        let ghost buf_before = buf@;
        buf[len] = 47u8;
        let rest = buf.len() - len - 1;
        let bytes: &[u8] = self.name.0;
        if bytes.len() > rest {
            copy_prefix(buf, len + 1, bytes, rest);
            proof {
                assert(buf@ =~= self.spec_path().take(buf@.len() as int));
            }
            Err(buf.len())
        } else {
            copy_prefix(buf, len + 1, bytes, bytes.len());
            proof {
                assert(buf@ =~= self.spec_path() + old(buf)@.skip(
                    self.spec_path().len() as int,
                ));
            }
            Ok(len + 1 + bytes.len())
        }
    }
}

/// Copies `src[..n]` into `buf` starting at `at`; the rest of `buf` keeps
/// its old contents.
pub(crate) fn copy_prefix(buf: &mut [u8], at: usize, src: &[u8], n: usize)
    requires
        at + n <= old(buf)@.len(),
        n <= src@.len(),
    ensures
        final(buf)@.len() == old(buf)@.len(),
        final(buf)@ == old(buf)@.take(at as int) + src@.take(n as int) + old(buf)@.skip(
            (at + n) as int,
        ),
{
    let total: usize = buf.len();
    let mut i: usize = 0;
    while i < n
        invariant
            total == buf@.len(),
            0 <= i <= n,
            at + n <= buf@.len(),
            buf@.len() == old(buf)@.len(),
            n <= src@.len(),
            forall|j: int| 0 <= j < i ==> buf@[at + j] == src@[j],
            forall|j: int| 0 <= j < at ==> buf@[j] == old(buf)@[j],
            forall|j: int| at + i <= j < buf@.len() ==> buf@[j] == old(buf)@[j],
        decreases n - i,
    {
        buf[at + i] = src[i];
        i += 1;
    }
    proof {
        assert(buf@ =~= old(buf)@.take(at as int) + src@.take(n as int) + old(buf)@.skip(
            (at + n) as int,
        ));
    }
}

} // verus!
