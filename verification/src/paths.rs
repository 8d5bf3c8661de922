//! Path assembly.
//!
//! The enumerator yields `(file_reference, parent_reference, name)` tuples;
//! this module folds them into a `NameTable` and resolves each leaf to a
//! full path by walking parent chains up to the volume root. A reference
//! seen twice (a file appears in both the MFT sweep and the journal) keeps
//! its first name; a missing parent or a chain deeper than the bound (a
//! corrupted, possibly cyclic parent graph) aborts that path.

use crate::ntfs::{UsnFields, UsnRecord};
use std::collections::HashMap;
use vstd::prelude::*;
use vstd::string::StringExecFns;

verus! {

broadcast use vstd::std_specs::hash::group_hash_axioms;

/// The NTFS file reference of a volume's root directory.
pub const ROOT_REFERENCE: u64 = 0x0005000000000005;

/// How many parent links a resolution follows before it gives the path up
/// as cyclic.
pub const MAX_RESOLVE_DEPTH: u64 = 1024;

/// What the table remembers of a record: its name and its parent.
pub struct NameEntry {
    pub name: String,
    pub parent: u64,
}

/// The map from file reference to name and parent reference, built once
/// from the record stream and then read-only during path assembly.
pub struct NameTable {
    map: HashMap<u64, NameEntry>,
}

impl View for NameTable {
    type V = Map<u64, (Seq<char>, u64)>;

    closed spec fn view(&self) -> Map<u64, (Seq<char>, u64)> {
        self.map@.map_values(|e: NameEntry| (e.name@, e.parent))
    }
}

/// One record folded into the table: the first observation of a reference
/// wins.
pub open spec fn table_step(
    m: Map<u64, (Seq<char>, u64)>,
    reference: u64,
    name: Seq<char>,
    parent: u64,
) -> Map<u64, (Seq<char>, u64)> {
    if m.contains_key(reference) {
        m
    } else {
        m.insert(reference, (name, parent))
    }
}

/// A record stream folded into the table, left to right.
pub open spec fn table_after(m: Map<u64, (Seq<char>, u64)>, rs: Seq<UsnFields>) -> Map<
    u64,
    (Seq<char>, u64),
>
    decreases rs.len(),
{
    if rs.len() == 0 {
        m
    } else {
        table_after(
            table_step(m, rs[0].file_reference, rs[0].name, rs[0].parent_reference),
            rs.skip(1),
        )
    }
}

/// The path of a reference, resolved through the table: its own name,
/// prefixed by each ancestor's name and a separator, stopping at the parent
/// that is the volume root. A missing reference, or a chain that exhausts
/// the fuel, resolves to nothing.
pub open spec fn resolve_spec(m: Map<u64, (Seq<char>, u64)>, leaf: u64, fuel: nat) -> Option<
    Seq<char>,
>
    decreases fuel,
{
    if !m.contains_key(leaf) {
        None
    } else {
        let (name, parent) = m[leaf];
        if parent == ROOT_REFERENCE {
            Some(name)
        } else if fuel == 0 {
            None
        } else {
            match resolve_spec(m, parent, (fuel - 1) as nat) {
                Option::None => None,
                Option::Some(prefix) => Some(prefix + seq!['\\'] + name),
            }
        }
    }
}

impl NameTable {
    /// An empty table.
    pub fn new() -> (r: NameTable)
        ensures
            r@ == Map::<u64, (Seq<char>, u64)>::empty(),
    {
        let r = NameTable { map: HashMap::new() };
        proof {
            assert(r@ =~= Map::<u64, (Seq<char>, u64)>::empty());
        }
        r
    }

    /// Folds one record in; the first observation of a reference wins.
    pub fn absorb(&mut self, reference: u64, name: String, parent: u64)
        ensures
            final (self)@ == table_step(old(self)@, reference, name@, parent),
    {
        let ghost nview = name@;
        if !self.map.contains_key(&reference) {
            let ghost old_map = self.map@;
            self.map.insert(reference, NameEntry { name, parent });
            proof {
                assert(self@ =~= old_map.map_values(|e: NameEntry| (e.name@, e.parent)).insert(
                    reference,
                    (nview, parent),
                ));
            }
        }
    }

    /// Folds a whole record stream in, in order.
    pub fn absorb_records(&mut self, records: &Vec<UsnRecord>)
        ensures
            final (self)@ == table_after(
                old(self)@,
                records@.map_values(|rec: UsnRecord| rec@),
            ),
    {
        let ghost all = records@.map_values(|rec: UsnRecord| rec@);
        let mut i: usize = 0;
        proof {
            assert(all.skip(0) =~= all);
        }
        while i < records.len()
            invariant
                i <= records@.len(),
                all == records@.map_values(|rec: UsnRecord| rec@),
                table_after(old(self)@, all) == table_after(self@, all.skip(i as int)),
            decreases records@.len() - i,
        {
            let rec = &records[i];
            let ghost before = self@;
            proof {
                assert(all.skip(i as int)[0] == all[i as int]);
                assert(all.skip(i as int).skip(1) =~= all.skip(i + 1));
            }
            self.absorb(rec.file_reference, rec.name.clone(), rec.parent_reference);
            proof {
                assert(all[i as int] == records@[i as int]@);
                assert(self@ == table_step(
                    before,
                    all[i as int].file_reference,
                    all[i as int].name,
                    all[i as int].parent_reference,
                ));
            }
            i = i + 1;
        }
        proof {
            assert(all.skip(records@.len() as int).len() == 0);
        }
    }

    /// How many references the table holds.
    pub fn len(&self) -> (r: usize)
        ensures
            r == self@.dom().len(),
    {
        proof {
            assert(self@.dom() =~= self.map@.dom());
        }
        self.map.len()
    }

    /// Resolves a reference with the given fuel.
    fn resolve_with_fuel(&self, leaf: u64, fuel: u64) -> (r: Option<String>)
        ensures
            r is Some <==> resolve_spec(self@, leaf, fuel as nat) is Some,
            r matches Some(s) ==> Some(s@) == resolve_spec(self@, leaf, fuel as nat),
        decreases fuel,
    {
        let entry = match self.map.get(&leaf) {
            Some(e) => e,
            None => {
                return None;
            },
        };
        proof {
            assert(self@.contains_key(leaf));
            assert(self@[leaf] == (entry.name@, entry.parent));
        }
        if entry.parent == ROOT_REFERENCE {
            return Some(entry.name.clone());
        }
        if fuel == 0 {
            return None;
        }
        match self.resolve_with_fuel(entry.parent, fuel - 1) {
            Some(prefix) => {
                let mut out = prefix;
                out.append("\\");
                out.append(entry.name.as_str());
                proof {
                    reveal_strlit("\\");
                    assert("\\"@ =~= seq!['\\']);
                }
                Some(out)
            },
            None => None,
        }
    }

    /// Resolves a leaf reference to its path below the volume root,
    /// following at most `MAX_RESOLVE_DEPTH` parent links.
    pub fn resolve(&self, leaf: u64) -> (r: Option<String>)
        ensures
            r is Some <==> resolve_spec(self@, leaf, MAX_RESOLVE_DEPTH as nat) is Some,
            r matches Some(s) ==> Some(s@) == resolve_spec(self@, leaf, MAX_RESOLVE_DEPTH as nat),
    {
        self.resolve_with_fuel(leaf, MAX_RESOLVE_DEPTH)
    }
}

} // verus!
