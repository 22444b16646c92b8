//! Device definitions: the immutable records a catalog holds.

use vstd::prelude::*;
use crate::EXP_ONE;
use crate::MAX_POWER;

verus! {

/// One device type: a primary name, alternate lookup names, a power
/// rating, and a combinability exponent in units of `1/EXP_ONE`.
pub struct DeviceDefinition {
    pub name: String,
    pub aliases: Vec<String>,
    pub power: u64,
    pub exp_q: u16,
}

/// The mathematical image of a definition: strings as character
/// sequences, numbers as unbounded integers.
#[verifier::ext_equal]
pub struct DeviceView {
    pub name: Seq<char>,
    pub aliases: Seq<Seq<char>>,
    pub power: int,
    pub exp_q: int,
}

impl View for DeviceDefinition {
    type V = DeviceView;

    open spec fn view(&self) -> DeviceView {
        DeviceView {
            name: self.name@,
            aliases: self.aliases.deep_view(),
            power: self.power as int,
            exp_q: self.exp_q as int,
        }
    }
}

impl DeepView for DeviceDefinition {
    type V = DeviceView;

    open spec fn deep_view(&self) -> DeviceView {
        self.view()
    }
}

/// The bounds every definition in the engine satisfies: the power
/// rating stays below `MAX_POWER` and the exponent below one.
pub open spec fn view_wf(d: DeviceView) -> bool {
    &&& 0 <= d.power <= MAX_POWER
    &&& 0 <= d.exp_q <= EXP_ONE
}

/// `key` looks this definition up: it is its name or one of its aliases.
pub open spec fn def_has_key(d: DeviceView, key: Seq<char>) -> bool {
    d.name == key || d.aliases.contains(key)
}

impl DeviceDefinition {
    pub open spec fn wf(&self) -> bool {
        view_wf(self@)
    }

    pub fn new(name: String, aliases: Vec<String>, power: u64, exp_q: u16) -> (r: DeviceDefinition)
        requires
            power <= MAX_POWER,
            exp_q <= EXP_ONE,
        ensures
            r@.name == name@,
            r@.aliases == aliases.deep_view(),
            r@.power == power as int,
            r@.exp_q == exp_q as int,
            r.wf(),
    {
        DeviceDefinition { name, aliases, power, exp_q }
    }

    /// An equal copy of this definition.
    pub fn duplicate(&self) -> (r: DeviceDefinition)
        ensures
            r@ == self@,
    {
        let aliases = self.aliases.clone();
        proof {
            assert forall|i: int| 0 <= i < aliases.len() implies aliases.deep_view()[i]
                == self.aliases.deep_view()[i] by {
                assert(vstd::pervasive::cloned(self.aliases[i], aliases[i]));
            }
            assert(aliases.deep_view() =~~= self.aliases.deep_view());
        }
        let r = DeviceDefinition {
            name: self.name.clone(),
            aliases,
            power: self.power,
            exp_q: self.exp_q,
        };
        proof {
            assert(r@ =~~= self@);
        }
        r
    }

    /// Whether `key` is the name or an alias of this definition.
    pub fn has_key(&self, key: &String) -> (r: bool)
        ensures
            r == def_has_key(self@, key@),
    {
        if self.name == *key {
            return true;
        }
        let mut i: usize = 0;
        while i < self.aliases.len()
            invariant
                0 <= i <= self.aliases.len(),
                forall|j: int| 0 <= j < i ==> self@.aliases[j] != key@,
            decreases self.aliases.len() - i,
        {
            if self.aliases[i] == *key {
                proof {
                    assert(self@.aliases[i as int] == key@);
                }
                return true;
            }
            i = i + 1;
        }
        proof {
            assert(!self@.aliases.contains(key@));
        }
        false
    }
}

} // verus!
