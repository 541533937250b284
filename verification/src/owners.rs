//! The inode-to-owner map: built fresh for every kernel-interface scan
//! from the process file-descriptor tables, then consulted to attribute
//! sockets to processes.

use vstd::prelude::*;

verus! {

/// Mapping from socket inode to the owning process id and name.
///
/// A later insertion for the same inode replaces the earlier one.
pub struct InodeOwnerMap {
    entries: Vec<(u64, u32, String)>,
}

impl View for InodeOwnerMap {
    type V = Map<u64, (u32, Seq<char>)>;

    closed spec fn view(&self) -> Map<u64, (u32, Seq<char>)> {
        map_of_entries(self.entries@)
    }
}

/// The map held by an entry list, later entries overriding earlier ones.
pub closed spec fn map_of_entries(es: Seq<(u64, u32, String)>) -> Map<u64, (u32, Seq<char>)>
    decreases es.len(),
{
    if es.len() == 0 {
        Map::empty()
    } else {
        map_of_entries(es.drop_last()).insert(es.last().0, (es.last().1, es.last().2@))
    }
}

impl InodeOwnerMap {
    /// An empty map.
    pub fn new() -> (r: Self)
        ensures
            r@ == Map::<u64, (u32, Seq<char>)>::empty(),
    {
        InodeOwnerMap { entries: Vec::new() }
    }

    /// Record that the socket with this inode belongs to the process
    /// `pid` named `name`.
    pub fn insert(&mut self, inode: u64, pid: u32, name: String)
        ensures
            final(self)@ == old(self)@.insert(inode, (pid, name@)),
    {
        let ghost pre = self.entries@;
        self.entries.push((inode, pid, name));
        proof {
            assert(self.entries@.drop_last() =~= pre);
        }
    }

    /// The owner recorded for this inode, if any.
    pub fn lookup(&self, inode: u64) -> (r: Option<(u32, String)>)
        ensures
            match r {
                Some(o) => self@.contains_key(inode) && self@[inode] == (o.0, o.1@),
                None => !self@.contains_key(inode),
            },
    {
        let ghost es = self.entries@;
        let n = self.entries.len();
        let mut j: usize = n;
        proof {
            assert(es.take(n as int) =~= es);
        }
        while j > 0
            invariant
                j <= n,
                n == es.len(),
                es == self.entries@,
                map_of_entries(es).contains_key(inode) == map_of_entries(
                    es.take(j as int),
                ).contains_key(inode),
                map_of_entries(es).contains_key(inode) ==> map_of_entries(es)[inode]
                    == map_of_entries(es.take(j as int))[inode],
            decreases j,
        {
            proof {
                assert(es.take(j as int).drop_last() =~= es.take(j as int - 1));
                assert(es.take(j as int).last() == es[j as int - 1]);
            }
            let entry = &self.entries[j - 1];
            if entry.0 == inode {
                return Some((entry.1, entry.2.clone()));
            }
            j = j - 1;
        }
        proof {
            assert(es.take(0) =~= Seq::<(u64, u32, String)>::empty());
        }
        None
    }
}

} // verus!
