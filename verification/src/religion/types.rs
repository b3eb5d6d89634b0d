use vstd::prelude::*;

use super::ReligionKey;

verus! {

/// Whether a religion is still followed.
#[derive(Debug, Clone, Copy, PartialEq, Eq, PartialOrd, Ord, Structural)]
pub enum ReligionStatus {
    Active,
    Extinct,
}

/// A religion in the tree of religions, in the form that tracks its age in
/// generations and a status flag.
pub struct Religion {
    /// name of the religion
    pub name: String,
    /// age in generations of the religion
    pub age: u32,
    /// is the religion still followed
    pub status: ReligionStatus,
    /// parent religion node
    pub parent: Option<ReligionKey>,
}

/// The name a religion gets: a root religion is "Gurneyism", a sect adds
/// "ism" to its parent's name.
pub open spec fn derived_name(parent_name: Option<Seq<char>>) -> Seq<char> {
    match parent_name {
        Some(p) => p + "ism"@,
        None => "Gurneyism"@,
    }
}

impl Religion {
    /// A new active religion of age zero; a sect of `parent` (with key `k`)
    /// records `k` as its parent and is named after it.
    pub fn new(parent: Option<(&Religion, ReligionKey)>) -> (r: Self)
        ensures
            r.age == 0,
            r.status == ReligionStatus::Active,
            parent is None ==> r.parent is None && r.name@ == derived_name(None),
            parent matches Some(p) ==> r.parent == Some(p.1) && r.name@ == derived_name(
                Some(p.0.name@),
            ),
    {
        match parent {
            None => Religion {
                name: Self::generate_name(None),
                age: 0,
                status: ReligionStatus::Active,
                parent: None,
            },
            Some((parent, parent_id)) => Religion {
                name: Self::generate_name(Some(parent.name.as_str())),
                age: 0,
                status: ReligionStatus::Active,
                parent: Some(parent_id),
            },
        }
    }

    fn generate_name(parent_name: Option<&str>) -> (r: String)
        ensures
            parent_name is None ==> r@ == derived_name(None),
            parent_name matches Some(p) ==> r@ == derived_name(Some(p@)),
    {
        match parent_name {
            Some(name) => {
                let mut s = name.to_owned();
                s.append("ism");
                s
            },
            None => "Gurneyism".to_owned(),
        }
    }

    /// Marks the religion as no longer followed.
    pub fn mark_extinct(&mut self)
        ensures
            final(self).status == ReligionStatus::Extinct,
            final(self).name == old(self).name,
            final(self).age == old(self).age,
            final(self).parent == old(self).parent,
    {
        self.status = ReligionStatus::Extinct;
    }

    /// Whether the religion is no longer followed.
    pub fn is_extinct(&self) -> (r: bool)
        ensures
            r == (self.status == ReligionStatus::Extinct),
    {
        self.status == ReligionStatus::Extinct
    }
}

} // verus!
