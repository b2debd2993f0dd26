//! Screen capture by other programs: the programs allowed to capture the screen for the rest of
//! this session, without anything written down.

use vstd::prelude::*;
use crate::screenshot::{same_path, same_place};

verus! {

/// What capture has been allowed this session.
pub struct Screencopy {
    once: Vec<String>,
}

impl Screencopy {
    /// The programs allowed for the rest of this session, by path.
    pub closed spec fn allowed(self) -> Seq<Seq<char>> {
        self.once@.map_values(|p: String| p@)
    }

    /// Nothing allowed yet.
    pub fn new() -> (r: Self)
        ensures
            r.allowed() == Seq::<Seq<char>>::empty(),
    {
        let r = Screencopy { once: Vec::new() };
        assert(r.allowed() =~= Seq::<Seq<char>>::empty());
        r
    }

    /// The programs allowed, by path.
    pub fn once(&self) -> (r: &Vec<String>)
        ensures
            r@.map_values(|p: String| p@) == self.allowed(),
    {
        &self.once
    }

    /// Allows a program for the rest of this session, without writing anything down; one
    /// already allowed is not listed again.
    pub fn allow_once(&mut self, exe: String)
        ensures
            (exists|i: int| 0 <= i < old(self).allowed().len() && same_place(old(self).allowed()[i], exe@))
                ==> final(self).allowed() == old(self).allowed(),
            !(exists|i: int| 0 <= i < old(self).allowed().len() && same_place(old(self).allowed()[i], exe@))
                ==> final(self).allowed() == old(self).allowed().push(exe@),
    {
        if !self.allowed_once(exe.as_str()) {
            let ghost before = self.once@;
            self.once.push(exe);
            assert(self.allowed() =~= before.map_values(|p: String| p@).push(exe@));
        }
    }

    /// Whether a program, by path, has been allowed this session. A program of the same name
    /// somewhere else is a different program.
    pub fn allowed_once(&self, exe: &str) -> (r: bool)
        ensures
            r == exists|i: int| 0 <= i < self.allowed().len() && same_place(self.allowed()[i], exe@),
    {
        let mut i: usize = 0;
        while i < self.once.len()
            invariant
                i <= self.once@.len(),
                forall|j: int| 0 <= j < i ==> !same_place(self.allowed()[j], exe@),
            decreases self.once@.len() - i,
        {
            if same_path(self.once[i].as_str(), exe) {
                assert(self.allowed()[i as int] == self.once@[i as int]@);
                return true;
            }
            assert(self.allowed()[i as int] == self.once@[i as int]@);
            i += 1;
        }
        false
    }
}

} // verus!
