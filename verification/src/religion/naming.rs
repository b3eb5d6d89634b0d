use rand::rngs::SmallRng;
use rand::seq::IndexedRandom;
use vstd::prelude::*;

verus! {

/// The random number generator that drives every draw of the simulation.
#[verifier::external_type_specification]
#[verifier::external_body]
pub struct ExSmallRng(SmallRng);

/// Names a root religion can be given.
pub open spec fn base_name_views() -> Seq<Seq<char>> {
    seq![
        "Gurneyism"@,
        "Aurelianism"@,
        "Solarity"@,
        "The Way of Tides"@,
        "Emberfaith"@,
        "Veydism"@,
        "The Old Covenant"@,
        "Starwardism"@,
    ]
}

/// Words set before a parent's name to name a sect that broke away from it.
pub open spec fn modifier_views() -> Seq<Seq<char>> {
    seq![
        "Reformed"@,
        "Orthodox"@,
        "Radical"@,
        "Neo"@,
        "Primitive"@,
        "Free"@,
        "Ascendant"@,
        "Restored"@,
    ]
}

/// The views of a list of names.
pub open spec fn name_views(names: Seq<&'static str>) -> Seq<Seq<char>> {
    names.map_values(|s: &'static str| s@)
}

fn religion_base_names() -> (r: Vec<&'static str>)
    ensures
        name_views(r@) == base_name_views(),
{
    let r = vec![
        "Gurneyism",
        "Aurelianism",
        "Solarity",
        "The Way of Tides",
        "Emberfaith",
        "Veydism",
        "The Old Covenant",
        "Starwardism",
    ];
    assert(name_views(r@) =~= base_name_views());
    r
}

fn religion_modifiers() -> (r: Vec<&'static str>)
    ensures
        name_views(r@) == modifier_views(),
{
    let r = vec![
        "Reformed",
        "Orthodox",
        "Radical",
        "Neo",
        "Primitive",
        "Free",
        "Ascendant",
        "Restored",
    ];
    assert(name_views(r@) =~= modifier_views());
    r
}

/// `rand`'s `IndexedRandom::choose` on a list of names: one of them drawn
/// with `rng`, or `None` when the list is empty. Which name comes out depends
/// on the state of `rng`; the contract says only that it is one of the list.
#[verifier::external_body]
fn choose_name(names: &Vec<&'static str>, rng: &mut SmallRng) -> (r: Option<&'static str>)
    ensures
        (names@.len() == 0) == (r is None),
        r matches Some(n) ==> names@.contains(n),
{
    names.as_slice().choose(rng).copied()
}

/// A name for a new religion: for a root religion (`parent_name` is `None`)
/// one of the base names, for a sect one of the modifiers, a space, and the
/// parent's name. Which one is drawn with `rng`.
pub fn generate_name(parent_name: Option<&str>, rng: &mut SmallRng) -> (r: String)
    ensures
        parent_name is None ==> base_name_views().contains(r@),
        parent_name matches Some(p) ==> exists|i: int|
            0 <= i < modifier_views().len() && r@ == modifier_views()[i] + " "@ + p@,
{
    match parent_name {
        None => root_name(rng),
        Some(name) => derivative_name(name, rng),
    }
}

fn root_name(rng: &mut SmallRng) -> (r: String)
    ensures
        base_name_views().contains(r@),
{
    let names = religion_base_names();
    let chosen = choose_name(&names, rng);
    proof {
        assert(name_views(names@).len() == 8);
    }
    match chosen {
        Some(n) => {
            proof {
                let i = choose|i: int| 0 <= i < names@.len() && names@[i] == n;
                assert(name_views(names@)[i] == n@);
            }
            n.to_owned()
        },
        None => {
            proof {
                assert(false);
            }
            String::new()
        },
    }
}

fn derivative_name(parent_name: &str, rng: &mut SmallRng) -> (r: String)
    ensures
        exists|i: int| 0 <= i < modifier_views().len() && r@ == modifier_views()[i] + " "@ + parent_name@,
{
    let modifiers = religion_modifiers();
    let chosen = choose_name(&modifiers, rng);
    proof {
        assert(name_views(modifiers@).len() == 8);
    }
    match chosen {
        Some(adj) => {
            let ghost i = choose|i: int| 0 <= i < modifiers@.len() && modifiers@[i] == adj;
            proof {
                assert(name_views(modifiers@)[i] == adj@);
            }
            let mut name = adj.to_owned();
            name.append(" ");
            name.append(parent_name);
            assert(name@ == modifier_views()[i] + " "@ + parent_name@);
            name
        },
        None => {
            proof {
                assert(false);
            }
            String::new()
        },
    }
}

} // verus!
