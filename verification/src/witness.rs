//! Witness cells assigned from named variables.

use crate::field::Fp;
use vstd::prelude::*;
use vstd::string::StringExecFns;

verus! {

/// A named variable environment: each entry binds a variable name to a field
/// element.  The first binding of a name is the one in force.
pub struct Variables {
    pub entries: Vec<(String, Fp)>,
}

/// Whether the environment binds the given name.
pub open spec fn binds(entries: Seq<(String, Fp)>, name: Seq<char>) -> bool
    decreases entries.len(),
{
    if entries.len() == 0 {
        false
    } else if entries[0].0@ == name {
        true
    } else {
        binds(entries.drop_first(), name)
    }
}

/// The value bound to the given name (the first binding wins).
pub open spec fn binding(entries: Seq<(String, Fp)>, name: Seq<char>) -> Fp
    decreases entries.len(),
{
    if entries.len() == 0 {
        Fp { v: 0 }
    } else if entries[0].0@ == name {
        entries[0].1
    } else {
        binding(entries.drop_first(), name)
    }
}

/// Witness cell assigned from a variable.
pub struct VariableCell<'a> {
    name: &'a str,
}

impl<'a> VariableCell<'a> {
    /// The name this cell reads.
    pub closed spec fn name_spec(&self) -> Seq<char> {
        self.name@
    }

    /// Create a witness cell assigned from a variable name.
    pub fn create(name: &'a str) -> (r: Box<VariableCell<'a>>)
        ensures
            r.name_spec() == name@,
    {
        Box::new(VariableCell { name })
    }

    /// The value of the cell: the binding of its variable name in the given
    /// environment, which must bind that name.
    pub fn value(&self, variables: &Variables) -> (r: Fp)
        requires
            binds(variables.entries@, self.name_spec()),
        ensures
            r == binding(variables.entries@, self.name_spec()),
    {
        let key: String = String::from_str(self.name);
        let n = variables.entries.len();
        let mut i: usize = 0;
        proof {
            assert(variables.entries@.skip(0) =~= variables.entries@);
        }
        loop
            invariant
                key@ == self.name_spec(),
                n == variables.entries@.len(),
                i <= n,
                binds(variables.entries@.skip(i as int), self.name_spec()),
                binding(variables.entries@.skip(i as int), self.name_spec()) == binding(
                    variables.entries@,
                    self.name_spec(),
                ),
            decreases n - i,
        {
            proof {
                assert(variables.entries@.skip(i as int).len() > 0);
                assert(variables.entries@.skip(i as int)[0] == variables.entries@[i as int]);
                assert(variables.entries@.skip(i as int).drop_first() =~= variables.entries@.skip(
                    i as int + 1,
                ));
            }
            if i >= n {
                proof {
                    assert(false);
                }
                return Fp { v: 0 };
            }
            if variables.entries[i].0 == key {
                return variables.entries[i].1;
            }
            i = i + 1;
        }
    }
}

} // verus!
