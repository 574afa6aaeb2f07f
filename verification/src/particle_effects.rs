//! The particle effects that clients can be told to show, by id.

use vstd::prelude::*;

use crate::items::{id_of, lookup_id};

verus! {

/// The id of a particle effect.
pub type ParticleEffectId = u32;

/// The names paired with their positions, the last first, so that a later name hides an
/// earlier equal one.
pub open spec fn numbered_from_last(names: Seq<String>) -> Seq<(String, u32)> {
    Seq::new(names.len(), |k: int| (names[names.len() - 1 - k], (names.len() - 1 - k) as u32))
}

/// Maps the name of each particle effect file to an id: its position among the files.
#[derive(Default, Debug)]
pub struct ParticleEffects {
    ids: Vec<(String, ParticleEffectId)>,
}

impl ParticleEffects {
    /// The names with their ids, the ones that hide equal earlier names first.
    pub closed spec fn pairs(&self) -> Seq<(String, ParticleEffectId)> {
        self.ids@
    }

    /// The effects of the files with the given names, each numbered by its position. Where two
    /// files have the same name, the later one's id is kept.
    pub fn from_names(names: Vec<String>) -> (r: ParticleEffects)
        requires
            names.len() <= u32::MAX + 1,
        ensures
            r.pairs() == numbered_from_last(names@),
    {
        let mut ids: Vec<(String, ParticleEffectId)> = Vec::new();
        let mut names = names;
        let ghost all = names@;
        while names.len() > 0
            invariant
                all.len() <= u32::MAX + 1,
                names.len() <= all.len(),
                names@ == all.subrange(0, names.len() as int),
                ids@ == numbered_from_last(all).subrange(0, all.len() - names.len()),
            decreases names.len(),
        {
            let id = (names.len() - 1) as u32;
            let ghost before = names@;
            let name = names.pop().unwrap();
            assert(name == all[names.len() as int]);
            assert(names@ =~= all.subrange(0, names.len() as int));
            ids.push((name, id));
            assert(ids@ =~= numbered_from_last(all).subrange(0, all.len() - names.len()));
        }
        assert(ids@ =~= numbered_from_last(all));
        ParticleEffects { ids }
    }

    /// The id of the effect with the name, if there is one.
    pub fn get_id(&self, name: &str) -> (r: Option<ParticleEffectId>)
        ensures
            r == id_of(self.pairs(), name@),
    {
        lookup_id(&self.ids, name)
    }

    /// The names with their ids.
    pub fn ids(&self) -> (r: &Vec<(String, ParticleEffectId)>)
        ensures
            r@ == self.pairs(),
    {
        &self.ids
    }
}

/// A name that occurs in the list gets the id of its last occurrence.
pub proof fn lemma_last_name_wins(names: Seq<String>, k: int)
    requires
        0 <= k < names.len(),
        names.len() <= u32::MAX + 1,
        forall|j: int| k < j < names.len() ==> names[j]@ != names[k]@,
    ensures
        id_of(numbered_from_last(names), names[k]@) == Some(k as u32),
{
    let pairs = numbered_from_last(names);
    lemma_id_of_prefix(pairs, names[k]@, names.len() - 1 - k);
}

/// The id of the first pair with the name, when none before it has the name.
proof fn lemma_id_of_prefix<T>(pairs: Seq<(String, T)>, name: Seq<char>, i: int)
    requires
        0 <= i < pairs.len(),
        pairs[i].0@ == name,
        forall|j: int| 0 <= j < i ==> pairs[j].0@ != name,
    ensures
        id_of(pairs, name) == Some(pairs[i].1),
    decreases i,
{
    if i > 0 {
        let rest = pairs.drop_first();
        assert forall|j: int| 0 <= j < i - 1 implies rest[j].0@ != name by {
            assert(rest[j] == pairs[j + 1]);
        }
        lemma_id_of_prefix(rest, name, i - 1);
    }
}

} // verus!
