//! Contest-level configuration consumed by the engine.

use vstd::prelude::*;

verus! {

/// Options steering a single contest's tabulation.
#[derive(Clone, Copy, PartialEq, Eq, Structural, Debug)]
pub struct TabulationOptions {
    /// NYC-style accounting: in the first round only, undervote and overvote
    /// ballots do not count toward the exhausted pile.
    pub nyc_style: Option<bool>,
}

impl TabulationOptions {
    /// Whether NYC-style round-zero accounting is in force.
    pub open spec fn spec_nyc(self) -> bool {
        self.nyc_style == Some(true)
    }

    pub fn nyc(&self) -> (r: bool)
        ensures
            r == self.spec_nyc(),
    {
        match self.nyc_style {
            Some(b) => b,
            None => false,
        }
    }
}

/// First value stored under `key`, if any.
pub open spec fn spec_param(entries: Seq<(String, String)>, key: Seq<char>) -> Option<Seq<char>>
    decreases entries.len(),
{
    if entries.len() == 0 {
        None
    } else if entries[0].0@ == key {
        Some(entries[0].1@)
    } else {
        spec_param(entries.drop_first(), key)
    }
}

/// The string-keyed loader parameters of one contest.
pub struct Params {
    pub entries: Vec<(String, String)>,
}

impl Params {
    pub fn new() -> (p: Params)
        ensures
            p.entries@.len() == 0,
    {
        Params { entries: Vec::new() }
    }

    pub fn insert(&mut self, key: String, value: String)
        ensures
            final(self).entries@ == old(self).entries@.push((key, value)),
    {
        self.entries.push((key, value));
    }

    /// Looks a key up (first match wins).
    pub fn get<'a>(&'a self, key: &String) -> (r: Option<&'a String>)
        ensures
            match r {
                Some(v) => Some(v@) == spec_param(self.entries@, key@),
                None => spec_param(self.entries@, key@) is None,
            },
    {
        let ghost full = self.entries@;
        proof {
            assert(full.skip(0) =~= full);
        }
        let mut i: usize = 0;
        while i < self.entries.len()
            invariant
                i <= full.len(),
                full == self.entries@,
                spec_param(full, key@) == spec_param(full.skip(i as int), key@),
            decreases full.len() - i,
        {
            proof {
                assert(full.skip(i as int).len() > 0);
                assert(full.skip(i as int)[0] == full[i as int]);
                assert(full.skip(i as int).drop_first() =~= full.skip(i as int + 1));
            }
            if self.entries[i].0 == *key {
                return Some(&self.entries[i].1);
            }
            i = i + 1;
        }
        proof {
            assert(full.skip(i as int).len() == 0);
        }
        None
    }
}

} // verus!
