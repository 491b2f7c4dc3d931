//! A node path as a chain of borrowed name frames.

use crate::context::copy_prefix;
use crate::str::Str;
use crate::tree_on_stack::Node;
use vstd::prelude::*;

verus! {

/// A path from the root to one node, each level holding the node's name.
pub struct Path<'a>(Node<'a, Str<'a>>);

/// The rendered form of a name chain: `/` and the name of every level
/// below the root, in root-first order; the root contributes nothing.
pub open spec fn spec_rendered(names: Seq<Seq<u8>>) -> Seq<u8>
    decreases names.len(),
{
    if names.len() <= 1 {
        seq![]
    } else {
        spec_rendered(names.drop_last()) + seq![47u8] + names.last()
    }
}

/// Renders one chain of name frames into `buf`, as [`Path::join`] says.
fn join_inner(node: &Node<'_, Str<'_>>, buf: &mut [u8]) -> (r: Result<usize, usize>)
    ensures
        final(buf)@.len() == old(buf)@.len(),
        match r {
            Ok(n) => n == spec_rendered(node.chain().map_values(|s: Str| s@)).len() && n <= old(
                buf,
            )@.len() && final(buf)@ == spec_rendered(node.chain().map_values(|s: Str| s@)) + old(
                buf,
            )@.skip(n as int),
            Err(n) => n == old(buf)@.len() && spec_rendered(
                node.chain().map_values(|s: Str| s@),
            ).len() > old(buf)@.len() && final(buf)@ == spec_rendered(
                node.chain().map_values(|s: Str| s@),
            ).take(old(buf)@.len() as int),
        },
    decreases *node,
{
    let ghost path = spec_rendered(node.chain().map_values(|s: Str| s@));
    let parent = match node.parent {
        None => {
            proof {
                assert(node.chain().map_values(|s: Str| s@).len() == 1);
                assert(buf@ =~= path + old(buf)@.skip(0));
            }
            return Ok(0);
        },
        Some(p) => p,
    };
    proof {
        let ch = node.chain().map_values(|s: Str| s@);
        assert(ch.drop_last() =~~= parent.chain().map_values(|s: Str| s@));
        assert(ch.last() == node.data@);
        assert(ch.len() >= 2);
    }
    let ghost parent_path = spec_rendered(parent.chain().map_values(|s: Str| s@));
    let len = match join_inner(parent, buf) {
        Ok(len) => len,
        Err(n) => {
            proof {
                assert(path.take(buf@.len() as int) =~= parent_path.take(buf@.len() as int));
            }
            return Err(n);
        },
    };
    if buf.len() - len == 0 {
        proof {
            assert(buf@ =~= path.take(buf@.len() as int));
        }
        return Err(buf.len());
    }
    buf[len] = 47u8;
    let rest = buf.len() - len - 1;
    let bytes: &[u8] = node.data.0;
    if bytes.len() > rest {
        copy_prefix(buf, len + 1, bytes, rest);
        proof {
            assert(buf@ =~= path.take(buf@.len() as int));
        }
        Err(buf.len())
    } else {
        copy_prefix(buf, len + 1, bytes, bytes.len());
        proof {
            assert(buf@ =~= path + old(buf)@.skip(path.len() as int));
        }
        Ok(len + 1 + bytes.len())
    }
}

impl<'a> Path<'a> {
    /// The names along this path, root first; the root's own entry is the
    /// empty name.
    pub closed spec fn spec_names(&self) -> Seq<Seq<u8>> {
        self.0.chain().map_values(|s: Str| s@)
    }

    /// The rendered form of this path.
    pub closed spec fn spec_path(&self) -> Seq<u8> {
        spec_rendered(self.spec_names())
    }

    /// The root path, which renders as the empty string.
    pub fn root() -> (p: Path<'a>)
        ensures
            p.spec_names() =~~= seq![Seq::<u8>::empty()],
            p.spec_path() == Seq::<u8>::empty(),
    {
        let p = Path(Node::root(Str(&[])));
        proof {
            assert(p.spec_names() =~~= seq![Seq::<u8>::empty()]);
        }
        p
    }

    /// How many levels this path has below the root.
    ///
    /// The chain is bounded by the machine's address space, since every
    /// link is a live stack frame; the bound below only states that limit.
    pub fn level(&self) -> (r: usize)
        requires
            self.spec_names().len() <= usize::MAX,
        ensures
            r + 1 == self.spec_names().len(),
    {
        self.0.level()
    }

    /// The name of the path's last level.
    pub fn last(&self) -> (r: Str<'a>)
        ensures
            r@ == self.spec_names().last(),
    {
        self.0.data
    }

    /// Whether this is the root path.
    pub fn is_root(&self) -> (r: bool)
        ensures
            r == (self.spec_names().len() == 1),
    {
        self.0.is_root()
    }

    /// Grows the path by one level borrowing this one.
    pub fn grow(&'a self, name: Str<'a>) -> (p: Path<'a>)
        ensures
            p.spec_names() == self.spec_names().push(name@),
            p.spec_path() == self.spec_path() + seq![47u8] + name@,
    {
        let p = Path(self.0.grow(name));
        proof {
            assert(p.spec_names() =~~= self.spec_names().push(name@));
            assert(p.spec_names().drop_last() =~~= self.spec_names());
        }
        p
    }

    /// Renders the path into `buf`.
    ///
    /// `Ok(n)` says the path is `n` bytes long and stands in `buf[..n]`;
    /// the rest of the buffer is untouched. `Err(n)` says the buffer is
    /// too short: `n` is exactly the buffer's length, and the buffer holds
    /// that much of the path's beginning.
    pub fn join(&self, buf: &mut [u8]) -> (r: Result<usize, usize>)
        ensures
            final(buf)@.len() == old(buf)@.len(),
            match r {
                Ok(n) => n == self.spec_path().len() && n <= old(buf)@.len() && final(buf)@
                    == self.spec_path() + old(buf)@.skip(n as int),
                Err(n) => n == old(buf)@.len() && self.spec_path().len() > old(buf)@.len()
                    && final(buf)@ == self.spec_path().take(old(buf)@.len() as int),
            },
    {
        join_inner(&self.0, buf)
    }
}

} // verus!
