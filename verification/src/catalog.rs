//! The device catalog: an ordered collection of definitions with
//! last-loaded-wins lookup by name or alias.

use vstd::prelude::*;
use crate::EngineError;
use crate::device::DeviceDefinition;
use crate::device::DeviceView;
use crate::device::def_has_key;
use crate::device::view_wf;

verus! {

/// Exact-match lookup, later definitions shadowing earlier ones per key.
pub open spec fn resolve_in(s: Seq<DeviceView>, key: Seq<char>) -> Option<DeviceView>
    decreases s.len(),
{
    if s.len() == 0 {
        None
    } else if def_has_key(s.last(), key) {
        Some(s.last())
    } else {
        resolve_in(s.drop_last(), key)
    }
}

/// No key whatever looks both definitions up.
pub open spec fn pair_clear(d1: DeviceView, d2: DeviceView) -> bool {
    forall|k: Seq<char>| !(def_has_key(d1, k) && def_has_key(d2, k))
}

/// Two definitions of one batch claim a common key.
pub open spec fn batch_conflict(s: Seq<DeviceView>) -> bool {
    exists|i: int, j: int| 0 <= i < j < s.len() && !pair_clear(s[i], s[j])
}

/// Every definition of the batch is within the engine's bounds.
pub open spec fn batch_wf(s: Seq<DeviceView>) -> bool {
    forall|i: int| 0 <= i < s.len() ==> view_wf(#[trigger] s[i])
}

/// All definitions are in bounds and no two share a name.
pub open spec fn catalog_wf(s: Seq<DeviceView>) -> bool {
    &&& batch_wf(s)
    &&& forall|i: int, j: int| 0 <= i < j < s.len() ==> (#[trigger] s[i]).name != (#[trigger] s[j]).name
}

/// The effect of loading one definition: a definition of the same name
/// leaves its place, and the new one goes to the end.
pub open spec fn apply_one(s: Seq<DeviceView>, d: DeviceView) -> Seq<DeviceView> {
    if exists|i: int| 0 <= i < s.len() && (#[trigger] s[i]).name == d.name {
        let i = choose|i: int| 0 <= i < s.len() && (#[trigger] s[i]).name == d.name;
        s.remove(i).push(d)
    } else {
        s.push(d)
    }
}

/// The effect of loading a whole batch, in batch order.
pub open spec fn apply_batch(s: Seq<DeviceView>, b: Seq<DeviceView>) -> Seq<DeviceView>
    decreases b.len(),
{
    if b.len() == 0 {
        s
    } else {
        apply_one(apply_batch(s, b.drop_last()), b.last())
    }
}

/// The known set of device definitions, built-ins seeded first, later
/// loads overriding earlier entries key by key.
pub struct DeviceCatalog {
    defs: Vec<DeviceDefinition>,
}

impl View for DeviceCatalog {
    type V = Seq<DeviceView>;

    closed spec fn view(&self) -> Seq<DeviceView> {
        self.defs.deep_view()
    }
}

impl DeviceCatalog {
    pub open spec fn wf(&self) -> bool {
        catalog_wf(self@)
    }

    /// A catalog with no definitions at all.
    pub fn empty() -> (r: DeviceCatalog)
        ensures
            r@ =~= Seq::<DeviceView>::empty(),
            r.wf(),
    {
        DeviceCatalog { defs: Vec::new() }
    }

    /// A catalog seeded with the built-in device set: the contents of
    /// `builtin_catalog`, with the two default keys resolvable.
    pub fn new() -> (r: DeviceCatalog)
        ensures
            r.wf(),
            builtin_catalog(r@),
            resolve_in(r@, "Command Module"@) == Some(r@[0]),
            resolve_in(r@, "DSN Lv.3"@) == Some(r@[10]),
            resolve_in(r@, "DSN"@) == Some(r@[10]),
    {
        let mut defs: Vec<DeviceDefinition> = Vec::new();
        defs.push(DeviceDefinition::new("Command Module".to_owned(),
            one_alias("Pod"), 5_000, 768));
        defs.push(DeviceDefinition::new("Communotron 16".to_owned(),
            one_alias("C-16"), 500_000, 1024));
        defs.push(DeviceDefinition::new("Communotron 16-S".to_owned(),
            one_alias("C-16S"), 500_000, 0));
        defs.push(DeviceDefinition::new("HG-5 High Gain".to_owned(),
            one_alias("HG-5"), 5_000_000, 768));
        defs.push(DeviceDefinition::new("Communotron DTS-M1".to_owned(),
            one_alias("DTS-M1"), 2_000_000_000, 768));
        defs.push(DeviceDefinition::new("RA-15 Relay".to_owned(),
            one_alias("RA-15"), 15_000_000_000, 768));
        defs.push(DeviceDefinition::new("Communotron 88-88".to_owned(),
            one_alias("88-88"), 100_000_000_000, 768));
        defs.push(DeviceDefinition::new("RA-100 Relay".to_owned(),
            one_alias("RA-100"), 100_000_000_000, 768));
        defs.push(DeviceDefinition::new("DSN Lv.1".to_owned(),
            Vec::new(), 2_000_000_000, 0));
        defs.push(DeviceDefinition::new("DSN Lv.2".to_owned(),
            Vec::new(), 50_000_000_000, 0));
        defs.push(DeviceDefinition::new("DSN Lv.3".to_owned(),
            one_alias("DSN"), 250_000_000_000, 0));
        let r = DeviceCatalog { defs };
        proof {
            assert(r@.len() == 11);
            assert(r@[0] =~~= (DeviceView { name: "Command Module"@, aliases: seq!["Pod"@], power: 5_000, exp_q: 768 }));
            assert(r@[1] =~~= (DeviceView { name: "Communotron 16"@, aliases: seq!["C-16"@], power: 500_000, exp_q: 1024 }));
            assert(r@[2] =~~= (DeviceView { name: "Communotron 16-S"@, aliases: seq!["C-16S"@], power: 500_000, exp_q: 0 }));
            assert(r@[3] =~~= (DeviceView { name: "HG-5 High Gain"@, aliases: seq!["HG-5"@], power: 5_000_000, exp_q: 768 }));
            assert(r@[4] =~~= (DeviceView { name: "Communotron DTS-M1"@, aliases: seq!["DTS-M1"@], power: 2_000_000_000, exp_q: 768 }));
            assert(r@[5] =~~= (DeviceView { name: "RA-15 Relay"@, aliases: seq!["RA-15"@], power: 15_000_000_000, exp_q: 768 }));
            assert(r@[6] =~~= (DeviceView { name: "Communotron 88-88"@, aliases: seq!["88-88"@], power: 100_000_000_000, exp_q: 768 }));
            assert(r@[7] =~~= (DeviceView { name: "RA-100 Relay"@, aliases: seq!["RA-100"@], power: 100_000_000_000, exp_q: 768 }));
            assert(r@[8] =~~= (DeviceView { name: "DSN Lv.1"@, aliases: Seq::<Seq<char>>::empty(), power: 2_000_000_000, exp_q: 0 }));
            assert(r@[9] =~~= (DeviceView { name: "DSN Lv.2"@, aliases: Seq::<Seq<char>>::empty(), power: 50_000_000_000, exp_q: 0 }));
            assert(r@[10] =~~= (DeviceView { name: "DSN Lv.3"@, aliases: seq!["DSN"@], power: 250_000_000_000, exp_q: 0 }));
            lemma_builtin_catalog(r@);
        }
        r
    }

    /// The definitions in enumeration order: built-ins in their fixed
    /// order, then loads in load order, an overridden name standing at
    /// the place of its final definition.
    pub fn all(&self) -> (r: &Vec<DeviceDefinition>)
        ensures
            r.deep_view() == self@,
    {
        &self.defs
    }

    /// Exact-match lookup of `key` as a name or alias; none if unknown.
    pub fn resolve(&self, key: &String) -> (r: Option<DeviceDefinition>)
        ensures
            match r {
                Some(d) => resolve_in(self@, key@) == Some(d@),
                None => resolve_in(self@, key@) is None,
            },
    {
        let mut i: usize = self.defs.len();
        proof {
            assert(self@.take(i as int) =~= self@);
        }
        while i > 0
            invariant
                i <= self.defs.len(),
                resolve_in(self@, key@) == resolve_in(self@.take(i as int), key@),
            decreases i,
        {
            let j: usize = i - 1;
            proof {
                assert(self@.take(i as int).last() == self@[j as int]);
                assert(self@[j as int] == self.defs[j as int]@);
            }
            if self.defs[j].has_key(key) {
                return Some(self.defs[j].duplicate());
            }
            proof {
                assert(self@.take(i as int).drop_last() =~= self@.take(j as int));
            }
            i = j;
        }
        proof {
            assert(self@.take(0) =~= Seq::<DeviceView>::empty());
        }
        None
    }

    /// Applies each definition of the batch in order, each overriding
    /// any existing entry under its name; refused whole, with the
    /// catalog untouched, when two definitions of the batch collide.
    pub fn load(&mut self, batch: &Vec<DeviceDefinition>) -> (r: Result<(), EngineError>)
        requires
            old(self).wf(),
            batch_wf(batch.deep_view()),
        ensures
            final(self).wf(),
            match r {
                Ok(()) => !batch_conflict(batch.deep_view())
                    && final(self)@ == apply_batch(old(self)@, batch.deep_view()),
                Err(EngineError::CatalogConflict { key }) => batch_conflict(batch.deep_view())
                    && final(self)@ == old(self)@
                    && exists|a: int, b: int| 0 <= a < b < batch.len()
                        && def_has_key(#[trigger] batch.deep_view()[a], key@)
                        && def_has_key(#[trigger] batch.deep_view()[b], key@),
                Err(_) => false,
            },
    {
        let ghost bv = batch.deep_view();
        // Conflict scan: every earlier definition against every later one.
        let mut i: usize = 0;
        while i < batch.len()
            invariant
                i <= batch.len(),
                bv == batch.deep_view(),
                *self == *old(self),
                old(self).wf(),
                forall|a: int, b: int| 0 <= a < b < i ==> pair_clear(bv[a], bv[b]),
            decreases batch.len() - i,
        {
            let mut j: usize = 0;
            while j < i
                invariant
                    j <= i < batch.len(),
                    bv == batch.deep_view(),
                    *self == *old(self),
                    old(self).wf(),
                    forall|a: int, b: int| 0 <= a < b < i ==> pair_clear(bv[a], bv[b]),
                    forall|a: int| 0 <= a < j ==> pair_clear(bv[a], bv[i as int]),
                decreases i - j,
            {
                match shared_key(&batch[j], &batch[i]) {
                    Some(k) => {
                        proof {
                            assert(def_has_key(bv[j as int], k@) && def_has_key(bv[i as int], k@));
                            assert(!pair_clear(bv[j as int], bv[i as int]));
                        }
                        return Err(EngineError::CatalogConflict { key: k });
                    },
                    None => {},
                }
                j = j + 1;
            }
            i = i + 1;
        }
        proof {
            assert(!batch_conflict(bv));
        }
        // Apply, in batch order.
        let ghost orig = self@;
        let mut i: usize = 0;
        while i < batch.len()
            invariant
                i <= batch.len(),
                bv == batch.deep_view(),
                batch_wf(bv),
                self@ == apply_batch(orig, bv.take(i as int)),
                self.wf(),
            decreases batch.len() - i,
        {
            let d = batch[i].duplicate();
            proof {
                assert(d@ == bv[i as int]);
                assert(view_wf(d@));
            }
            self.apply_def(d);
            proof {
                assert(bv.take(i + 1 as int).drop_last() =~= bv.take(i as int));
                assert(bv.take(i + 1 as int).last() == bv[i as int]);
            }
            i = i + 1;
        }
        proof {
            assert(bv.take(batch.len() as int) =~= bv);
        }
        Ok(())
    }

    /// Inserts one definition, removing any entry of the same name first.
    fn apply_def(&mut self, d: DeviceDefinition)
        requires
            old(self).wf(),
            view_wf(d@),
        ensures
            final(self)@ == apply_one(old(self)@, d@),
            final(self).wf(),
    {
        let ghost orig = self@;
        let mut found: Option<usize> = None;
        let mut i: usize = 0;
        while i < self.defs.len()
            invariant
                i <= self.defs.len(),
                match found {
                    Some(idx) => idx < i && self@[idx as int].name == d@.name,
                    None => forall|a: int| 0 <= a < i ==> (#[trigger] self@[a]).name != d@.name,
                },
            decreases self.defs.len() - i,
        {
            match found {
                Some(_) => {},
                None => {
                    proof {
                        assert(self@[i as int] == self.defs[i as int]@);
                    }
                    if self.defs[i].name == d.name {
                        found = Some(i);
                    }
                },
            }
            i = i + 1;
        }
        match found {
            Some(idx) => {
                proof {
                    assert(exists|a: int| 0 <= a < orig.len() && (#[trigger] orig[a]).name == d@.name);
                    let c = choose|a: int| 0 <= a < orig.len() && (#[trigger] orig[a]).name == d@.name;
                    assert(c == idx as int);
                }
                self.defs.remove(idx);
                self.defs.push(d);
                proof {
                    assert(self@ =~= apply_one(orig, d@));
                    lemma_apply_keeps_wf(orig, d@, idx as int);
                }
            },
            None => {
                self.defs.push(d);
                proof {
                    assert(self@ =~= apply_one(orig, d@));
                    assert forall|a: int, b: int| 0 <= a < b < self@.len()
                        implies (#[trigger] self@[a]).name != (#[trigger] self@[b]).name by {
                        if b == self@.len() - 1 {
                            assert(self@[a] == orig[a]);
                        }
                    }
                }
            },
        }
    }
}

/// Removing the name's earlier holder and appending the new definition
/// keeps all names distinct and all entries in bounds.
proof fn lemma_apply_keeps_wf(s: Seq<DeviceView>, d: DeviceView, idx: int)
    requires
        catalog_wf(s),
        view_wf(d),
        0 <= idx < s.len(),
        s[idx].name == d.name,
        forall|a: int| 0 <= a < idx ==> (#[trigger] s[a]).name != d.name,
    ensures
        catalog_wf(s.remove(idx).push(d)),
{
    let t = s.remove(idx).push(d);
    assert forall|a: int| 0 <= a < t.len() implies view_wf(#[trigger] t[a]) by {
        if a < t.len() - 1 {
            if a < idx {
                assert(t[a] == s[a]);
            } else {
                assert(t[a] == s[a + 1]);
            }
        }
    }
    assert forall|a: int, b: int| 0 <= a < b < t.len()
        implies (#[trigger] t[a]).name != (#[trigger] t[b]).name by {
        if b < t.len() - 1 {
            let sa: int = if a < idx { a } else { a + 1 };
            let sb: int = if b < idx { b } else { b + 1 };
            assert(t[a] == s[sa] && t[b] == s[sb]);
        } else {
            let sa: int = if a < idx { a } else { a + 1 };
            assert(t[a] == s[sa]);
            assert(sa != idx);
            assert(s[sa].name != s[idx].name);
        }
    }
}

/// The built-in device set, pinned definition by definition.
pub open spec fn builtin_catalog(s: Seq<DeviceView>) -> bool {
    &&& s.len() == 11
    &&& s[0] == (DeviceView { name: "Command Module"@, aliases: seq!["Pod"@], power: 5_000, exp_q: 768 })
    &&& s[1] == (DeviceView { name: "Communotron 16"@, aliases: seq!["C-16"@], power: 500_000, exp_q: 1024 })
    &&& s[2] == (DeviceView { name: "Communotron 16-S"@, aliases: seq!["C-16S"@], power: 500_000, exp_q: 0 })
    &&& s[3] == (DeviceView { name: "HG-5 High Gain"@, aliases: seq!["HG-5"@], power: 5_000_000, exp_q: 768 })
    &&& s[4] == (DeviceView { name: "Communotron DTS-M1"@, aliases: seq!["DTS-M1"@], power: 2_000_000_000, exp_q: 768 })
    &&& s[5] == (DeviceView { name: "RA-15 Relay"@, aliases: seq!["RA-15"@], power: 15_000_000_000, exp_q: 768 })
    &&& s[6] == (DeviceView { name: "Communotron 88-88"@, aliases: seq!["88-88"@], power: 100_000_000_000, exp_q: 768 })
    &&& s[7] == (DeviceView { name: "RA-100 Relay"@, aliases: seq!["RA-100"@], power: 100_000_000_000, exp_q: 768 })
    &&& s[8] == (DeviceView { name: "DSN Lv.1"@, aliases: Seq::<Seq<char>>::empty(), power: 2_000_000_000, exp_q: 0 })
    &&& s[9] == (DeviceView { name: "DSN Lv.2"@, aliases: Seq::<Seq<char>>::empty(), power: 50_000_000_000, exp_q: 0 })
    &&& s[10] == (DeviceView { name: "DSN Lv.3"@, aliases: seq!["DSN"@], power: 250_000_000_000, exp_q: 0 })
}

/// A vector holding one alias.
fn one_alias(a: &str) -> (v: Vec<String>)
    ensures
        v.deep_view() =~= seq![a@],
{
    let mut v: Vec<String> = Vec::new();
    v.push(a.to_owned());
    v
}

/// The built-in names are pairwise distinct, so the seeded catalog is
/// well formed, and the default keys resolve to their definitions.
proof fn lemma_builtin_catalog(s: Seq<DeviceView>)
    requires
        builtin_catalog(s),
    ensures
        catalog_wf(s),
        resolve_in(s, "Command Module"@) == Some(s[0]),
        resolve_in(s, "DSN Lv.3"@) == Some(s[10]),
        resolve_in(s, "DSN"@) == Some(s[10]),
{
    reveal_strlit("Command Module");
    reveal_strlit("Communotron 16");
    reveal_strlit("Communotron 16-S");
    reveal_strlit("HG-5 High Gain");
    reveal_strlit("Communotron DTS-M1");
    reveal_strlit("RA-15 Relay");
    reveal_strlit("Communotron 88-88");
    reveal_strlit("RA-100 Relay");
    reveal_strlit("DSN Lv.1");
    reveal_strlit("DSN Lv.2");
    reveal_strlit("DSN Lv.3");
    reveal_strlit("Pod");
    reveal_strlit("C-16");
    reveal_strlit("C-16S");
    reveal_strlit("HG-5");
    reveal_strlit("DTS-M1");
    reveal_strlit("RA-15");
    reveal_strlit("88-88");
    reveal_strlit("RA-100");
    reveal_strlit("DSN");
    // The same-length name pairs differ at a character; the rest
    // differ in length.
    assert("Command Module"@[4] != "Communotron 16"@[4]);
    assert("Command Module"@[0] != "HG-5 High Gain"@[0]);
    assert("Communotron 16"@[0] != "HG-5 High Gain"@[0]);
    assert("DSN Lv.1"@[7] != "DSN Lv.2"@[7]);
    assert("DSN Lv.1"@[7] != "DSN Lv.3"@[7]);
    assert("DSN Lv.2"@[7] != "DSN Lv.3"@[7]);
    assert forall|i: int, j: int| 0 <= i < j < s.len()
        implies (#[trigger] s[i]).name != (#[trigger] s[j]).name by {
        assert(s[i].name.len() != s[j].name.len() || s[i].name != s[j].name);
    }
    assert(def_has_key(s[10], "DSN Lv.3"@));
    assert(s[10].aliases.contains("DSN"@)) by {
        assert(s[10].aliases[0] == "DSN"@);
    }
    lemma_resolve_at(s, 10, "DSN Lv.3"@);
    lemma_resolve_at(s, 10, "DSN"@);
    assert(def_has_key(s[0], "Command Module"@));
    assert forall|j: int| 0 < j < s.len()
        implies !def_has_key(#[trigger] s[j], "Command Module"@) by {
        assert(s[j].name != "Command Module"@);
        if s[j].aliases.contains("Command Module"@) {
            assert(s[j].aliases[0] == "Command Module"@);
        }
    }
    lemma_resolve_at(s, 0, "Command Module"@);
}

/// Resolution of a key lands on its last holder: the definition that
/// carries it and that no later definition shadows.
pub proof fn lemma_resolve_at(s: Seq<DeviceView>, i: int, key: Seq<char>)
    requires
        0 <= i < s.len(),
        def_has_key(s[i], key),
        forall|j: int| i < j < s.len() ==> !def_has_key(#[trigger] s[j], key),
    ensures
        resolve_in(s, key) == Some(s[i]),
    decreases s.len(),
{
    if i == s.len() - 1 {
    } else {
        assert(!def_has_key(s.last(), key));
        assert(s.drop_last()[i] == s[i]);
        assert forall|j: int| i < j < s.len() - 1
            implies !def_has_key(#[trigger] s.drop_last()[j], key) by {
            assert(s.drop_last()[j] == s[j]);
        }
        lemma_resolve_at(s.drop_last(), i, key);
    }
}

/// A key that looks both definitions up, when one exists.
pub fn shared_key(a: &DeviceDefinition, b: &DeviceDefinition) -> (r: Option<String>)
    ensures
        match r {
            Some(k) => def_has_key(a@, k@) && def_has_key(b@, k@),
            None => pair_clear(a@, b@),
        },
{
    if b.has_key(&a.name) {
        return Some(a.name.clone());
    }
    let mut i: usize = 0;
    while i < a.aliases.len()
        invariant
            i <= a.aliases.len(),
            !def_has_key(b@, a@.name),
            forall|j: int| 0 <= j < i ==> !def_has_key(b@, #[trigger] a@.aliases[j]),
        decreases a.aliases.len() - i,
    {
        proof {
            assert(a@.aliases[i as int] == a.aliases[i as int]@);
        }
        if b.has_key(&a.aliases[i]) {
            proof {
                assert(a@.aliases.contains(a@.aliases[i as int]));
            }
            return Some(a.aliases[i].clone());
        }
        i = i + 1;
    }
    proof {
        assert forall|k: Seq<char>| !(def_has_key(a@, k) && def_has_key(b@, k)) by {
            if def_has_key(a@, k) && def_has_key(b@, k) {
                if k == a@.name {
                } else {
                    let j = choose|j: int| 0 <= j < a@.aliases.len() && a@.aliases[j] == k;
                    assert(!def_has_key(b@, a@.aliases[j]));
                }
            }
        }
    }
    None
}

/// Looking up a key the loaded definition carries lands on it.
pub proof fn lemma_load_overrides_key(s: Seq<DeviceView>, d: DeviceView, key: Seq<char>)
    requires
        def_has_key(d, key),
    ensures
        resolve_in(apply_one(s, d), key) == Some(d),
{
    let t = apply_one(s, d);
    assert(t.last() == d);
}

/// Resolution of a key is unchanged by removing an entry that is not
/// what the key resolves to.
proof fn lemma_resolve_remove(s: Seq<DeviceView>, i: int, key: Seq<char>)
    requires
        0 <= i < s.len(),
        match resolve_in(s, key) {
            Some(x) => x.name != s[i].name,
            None => true,
        },
    ensures
        resolve_in(s.remove(i), key) == resolve_in(s, key),
    decreases s.len(),
{
    if resolve_in(s, key) is None {
        lemma_resolve_none(s, key);
    }
    if i == s.len() - 1 {
        assert(s.remove(i) =~= s.drop_last());
        assert(!def_has_key(s.last(), key));
    } else {
        let t = s.remove(i);
        assert(t.last() == s.last());
        assert(t.drop_last() =~= s.drop_last().remove(i));
        if def_has_key(s.last(), key) {
        } else {
            lemma_resolve_remove(s.drop_last(), i, key);
        }
    }
}

/// A key resolves to nothing exactly when no definition carries it.
pub proof fn lemma_resolve_none(s: Seq<DeviceView>, key: Seq<char>)
    requires
        resolve_in(s, key) is None,
    ensures
        forall|a: int| 0 <= a < s.len() ==> !def_has_key(#[trigger] s[a], key),
    decreases s.len(),
{
    if s.len() > 0 {
        lemma_resolve_none(s.drop_last(), key);
        assert forall|a: int| 0 <= a < s.len() implies !def_has_key(#[trigger] s[a], key) by {
            if a < s.len() - 1 {
                assert(s.drop_last()[a] == s[a]);
            }
        }
    }
}

/// Loading a definition leaves every mapping intact whose key the new
/// definition does not carry and whose holder has another name: in
/// particular, a definition whose alias a later load takes over still
/// resolves under its own name.
pub proof fn lemma_load_keeps_other_key(s: Seq<DeviceView>, d: DeviceView, other: DeviceView, key: Seq<char>)
    requires
        resolve_in(s, key) == Some(other),
        other.name != d.name,
        !def_has_key(d, key),
    ensures
        resolve_in(apply_one(s, d), key) == Some(other),
    decreases s.len(),
{
    let t = apply_one(s, d);
    assert(!def_has_key(t.last(), key));
    if exists|i: int| 0 <= i < s.len() && (#[trigger] s[i]).name == d.name {
        let i = choose|i: int| 0 <= i < s.len() && (#[trigger] s[i]).name == d.name;
        assert(t.drop_last() =~= s.remove(i));
        lemma_resolve_remove(s, i, key);
    } else {
        assert(t.drop_last() =~= s);
    }
}

/// What a well-formed catalog resolves to is itself well formed.
pub proof fn lemma_resolve_wf(s: Seq<DeviceView>, key: Seq<char>, d: DeviceView)
    requires
        batch_wf(s),
        resolve_in(s, key) == Some(d),
    ensures
        view_wf(d),
    decreases s.len(),
{
    if s.len() > 0 {
        if def_has_key(s.last(), key) {
            assert(s[s.len() - 1] == s.last());
        } else {
            assert(batch_wf(s.drop_last())) by {
                assert forall|a: int| 0 <= a < s.len() - 1 implies view_wf(#[trigger] s.drop_last()[a]) by {
                    assert(s.drop_last()[a] == s[a]);
                }
            }
            lemma_resolve_wf(s.drop_last(), key, d);
        }
    }
}

} // verus!
