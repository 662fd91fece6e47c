//! Which network interface to bind to when the caller names none.
//!
//! A bridge `bridge0` that is up and running is taken first; failing that, a
//! wired interface (`en…`) with a link-local address; failing that, any
//! interface that is up and running. Among equals the first listed wins.

use vstd::prelude::*;
use vstd::string::{StrSliceExecFns, StringExecFns};

verus! {

#[derive(Debug, PartialEq, Eq)]
pub struct InterfaceInfo {
    pub name: String,
    /// The four octets of the interface's IPv4 address, first octet first.
    pub ipv4: [u8; 4],
    pub is_up: bool,
    pub is_running: bool,
}

/// What an interface is preferred for.
#[derive(Debug, Clone, Copy, PartialEq, Eq, Structural)]
pub enum Preference {
    /// The bridge `bridge0`.
    Bridge,
    /// A wired interface whose address starts with 169.
    LinkLocalWired,
    /// Whatever is up and running.
    Active,
}

impl InterfaceInfo {
    /// Whether the interface is up and running.
    pub open spec fn is_active(self) -> bool {
        self.is_up && self.is_running
    }

    /// Whether the interface's name starts with `en`.
    pub open spec fn is_wired(self) -> bool {
        self.name@.len() >= 2 && self.name@[0] == 'e' && self.name@[1] == 'n'
    }

    /// Whether the interface is of the kind that `preference` asks for.
    pub open spec fn suits(self, preference: Preference) -> bool {
        self.is_active() && match preference {
            Preference::Bridge => self.name@ == "bridge0"@,
            Preference::LinkLocalWired => self.is_wired() && self.ipv4@[0] == 169,
            Preference::Active => true,
        }
    }

    fn check_suits(&self, preference: Preference) -> (suits: bool)
        ensures
            suits == self.suits(preference),
    {
        if !(self.is_up && self.is_running) {
            return false;
        }
        match preference {
            Preference::Bridge => {
                let bridge = String::from_str("bridge0");
                self.name == bridge
            },
            Preference::LinkLocalWired => {
                let name = self.name.as_str();
                name.unicode_len() >= 2 && name.get_char(0) == 'e' && name.get_char(1) == 'n'
                    && self.ipv4[0] == 169
            },
            Preference::Active => true,
        }
    }

}

impl Clone for InterfaceInfo {
    fn clone(&self) -> (copy: Self)
        ensures
            copy == *self,
    {
        InterfaceInfo {
            name: self.name.clone(),
            ipv4: self.ipv4,
            is_up: self.is_up,
            is_running: self.is_running,
        }
    }
}

/// The first of `interfaces` that suits `preference`, if any does.
pub open spec fn first_suited(interfaces: Seq<InterfaceInfo>, preference: Preference) -> Option<
    InterfaceInfo,
>
    decreases interfaces.len(),
{
    if interfaces.len() == 0 {
        None
    } else if interfaces.first().suits(preference) {
        Some(interfaces.first())
    } else {
        first_suited(interfaces.drop_first(), preference)
    }
}

/// The interface to prefer among `interfaces`.
pub open spec fn preferred(interfaces: Seq<InterfaceInfo>) -> Option<InterfaceInfo> {
    if first_suited(interfaces, Preference::Bridge) is Some {
        first_suited(interfaces, Preference::Bridge)
    } else if first_suited(interfaces, Preference::LinkLocalWired) is Some {
        first_suited(interfaces, Preference::LinkLocalWired)
    } else {
        first_suited(interfaces, Preference::Active)
    }
}

/// What is found first is suited, is among the interfaces, and has nothing
/// suited before it; where nothing is found, nothing is suited.
pub proof fn lemma_first_suited(interfaces: Seq<InterfaceInfo>, preference: Preference)
    ensures
        match first_suited(interfaces, preference) {
            Some(found) => exists|place: int|
                0 <= place < interfaces.len() && #[trigger] interfaces[place] == found
                    && found.suits(preference) && forall|before: int|
                    0 <= before < place ==> !(#[trigger] interfaces[before]).suits(preference),
            None => forall|place: int|
                0 <= place < interfaces.len() ==> !(#[trigger] interfaces[place]).suits(preference),
        },
    decreases interfaces.len(),
{
    if interfaces.len() > 0 {
        if interfaces.first().suits(preference) {
            assert(interfaces[0] == interfaces.first());
        } else {
            let rest = interfaces.drop_first();
            lemma_first_suited(rest, preference);
            match first_suited(rest, preference) {
                Some(found) => {
                    let place = choose|place: int|
                        0 <= place < rest.len() && #[trigger] rest[place] == found && found.suits(
                            preference,
                        ) && forall|before: int|
                            0 <= before < place ==> !(#[trigger] rest[before]).suits(preference);
                    assert(interfaces[place + 1] == found);
                    assert forall|before: int| 0 <= before < place + 1 implies !(
                    #[trigger] interfaces[before]).suits(preference) by {
                        if before > 0 {
                            assert(rest[before - 1] == interfaces[before]);
                        }
                    }
                },
                None => {
                    assert forall|place: int| 0 <= place < interfaces.len() implies !(
                    #[trigger] interfaces[place]).suits(preference) by {
                        if place > 0 {
                            assert(rest[place - 1] == interfaces[place]);
                        }
                    }
                },
            }
        }
    }
}

fn find_first(interfaces: &[InterfaceInfo], preference: Preference) -> (found: Option<
    InterfaceInfo,
>)
    ensures
        found == first_suited(interfaces@, preference),
{
    let mut place: usize = 0;
    proof {
        assert(interfaces@.skip(0) =~= interfaces@);
    }
    while place < interfaces.len()
        invariant
            place <= interfaces@.len(),
            first_suited(interfaces@, preference) == first_suited(
                interfaces@.skip(place as int),
                preference,
            ),
        decreases interfaces@.len() - place,
    {
        proof {
            let rest = interfaces@.skip(place as int);
            assert(rest.first() == interfaces@[place as int]);
            assert(rest.drop_first() =~= interfaces@.skip(place + 1));
        }
        if interfaces[place].check_suits(preference) {
            return Some(interfaces[place].clone());
        }
        place = place + 1;
    }
    proof {
        assert(interfaces@.skip(place as int) =~= Seq::empty());
    }
    None
}

/// Picks the interface to bind to.
pub fn choose_preferred_interface(interfaces: &[InterfaceInfo]) -> (chosen: Option<InterfaceInfo>)
    ensures
        chosen == preferred(interfaces@),
{
    if let Some(interface) = find_first(interfaces, Preference::Bridge) {
        return Some(interface);
    }
    if let Some(interface) = find_first(interfaces, Preference::LinkLocalWired) {
        return Some(interface);
    }
    find_first(interfaces, Preference::Active)
}

} // verus!
