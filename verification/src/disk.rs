//! A volume identified by its drive letter, and the string forms of its
//! mount path. Enumerating the machine's volumes and opening one for raw
//! reads are operating-system work and live outside this crate; here a
//! volume is just its letter.

use vstd::prelude::*;

use crate::text::push_char;

verus! {

/// A volume's drive letter.
#[derive(Debug, Clone, Copy, PartialEq, Eq, Hash)]
pub struct DiskLetter(pub char);

impl From<char> for DiskLetter {
    fn from(value: char) -> (r: Self) {
        DiskLetter(value)
    }
}

impl vstd::std_specs::convert::FromSpecImpl<char> for DiskLetter {
    open spec fn obeys_from_spec() -> bool {
        true
    }

    open spec fn from_spec(t: char) -> Self {
        DiskLetter(t)
    }
}

impl DiskLetter {
    pub open spec fn letter(self) -> char {
        self.0
    }

    pub fn new(c: char) -> (r: Self)
        ensures
            r.letter() == c,
    {
        DiskLetter(c)
    }

    /// The letter alone, as text.
    pub fn to_string(&self) -> (r: String)
        ensures
            r@ == seq![self.letter()],
    {
        let mut s = String::new();
        push_char(&mut s, self.0);
        proof {
            assert(s@ =~= seq![self.0]);
        }
        s
    }

    /// The letter followed by a colon, e.g. `C:`.
    pub fn with_dots(&self) -> (r: String)
        ensures
            r@ == seq![self.letter(), ':'],
    {
        let mut s = self.to_string();
        push_char(&mut s, ':');
        proof {
            assert(s@ =~= seq![self.0, ':']);
        }
        s
    }

    /// The volume's mount path, e.g. `C:\`.
    pub fn path_as_str(&self) -> (r: String)
        ensures
            r@ == seq![self.letter(), ':', '\\'],
    {
        let mut s = self.with_dots();
        push_char(&mut s, '\\');
        proof {
            assert(s@ =~= seq![self.0, ':', '\\']);
        }
        s
    }

    /// The mount path with a redundant trailing separator, e.g. `C:\\`.
    pub fn path(&self) -> (r: String)
        ensures
            r@ == seq![self.letter(), ':', '\\', '\\'],
    {
        let mut s = self.path_as_str();
        push_char(&mut s, '\\');
        proof {
            assert(s@ =~= seq![self.0, ':', '\\', '\\']);
        }
        s
    }
}

} // verus!
