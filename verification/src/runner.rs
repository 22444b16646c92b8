//! Orchestration: builds the two endpoints from raw (count, key)
//! specifications against the catalog, combines their powers, derives
//! the maximum distance and evaluates the band table.

use vstd::prelude::*;
use crate::EngineError;
use crate::MAX_TOTAL_COUNT;
use crate::bands::BandTable;
use crate::bands::SignalEntry;
use crate::bands::entry_matches;
use crate::catalog::DeviceCatalog;
use crate::catalog::lemma_resolve_wf;
use crate::catalog::resolve_in;
use crate::device::DeviceView;
use crate::endpoint::Endpoint;
use crate::endpoint::combined_spec;
use crate::endpoint::contribs;
use crate::endpoint::total_count;
use crate::range::max_distance;
use crate::range::max_distance_spec;

verus! {

/// The mathematical image of raw specifications: (count, key) pairs.
pub open spec fn specs_view(v: Vec<(u64, String)>) -> Seq<(int, Seq<char>)> {
    Seq::new(v.len() as nat, |i: int| (v[i].0 as int, v[i].1@))
}

/// The sum of the requested counts.
pub open spec fn counts_total(sv: Seq<(int, Seq<char>)>) -> int
    decreases sv.len(),
{
    if sv.len() == 0 {
        0
    } else {
        counts_total(sv.drop_last()) + sv.last().0
    }
}

/// One specification is serviceable: a positive count and a known key.
pub open spec fn spec_ok(cat: Seq<DeviceView>, sp: (int, Seq<char>)) -> bool {
    sp.0 >= 1 && resolve_in(cat, sp.1) is Some
}

/// The first index at or after `i` whose specification fails, or -1.
pub open spec fn first_fail(cat: Seq<DeviceView>, sv: Seq<(int, Seq<char>)>, i: int) -> int
    decreases sv.len() - i,
{
    if i < 0 || i >= sv.len() {
        -1
    } else if !spec_ok(cat, sv[i]) {
        i
    } else {
        first_fail(cat, sv, i + 1)
    }
}

/// Whether the build of an endpoint succeeds: every specification is
/// serviceable, or, with none given, the default key is known.
pub open spec fn build_ok(cat: Seq<DeviceView>, sv: Seq<(int, Seq<char>)>, dkey: Seq<char>) -> bool {
    if sv.len() == 0 {
        resolve_in(cat, dkey) is Some
    } else {
        first_fail(cat, sv, 0) == -1
    }
}

/// What a successful build holds: each specification resolved in
/// order, or exactly one default pair when none was given.
pub open spec fn built_view(
    cat: Seq<DeviceView>,
    sv: Seq<(int, Seq<char>)>,
    dcount: int,
    dkey: Seq<char>,
) -> Seq<(DeviceView, int)> {
    if sv.len() == 0 {
        seq![(resolve_in(cat, dkey).unwrap(), dcount)]
    } else {
        Seq::new(sv.len(), |i: int| (resolve_in(cat, sv[i].1).unwrap(), sv[i].0))
    }
}

/// The exact error a failed build reports.
pub open spec fn build_err_matches(
    cat: Seq<DeviceView>,
    sv: Seq<(int, Seq<char>)>,
    dkey: Seq<char>,
    e: EngineError,
) -> bool {
    match e {
        EngineError::InvalidCount => {
            let ff = first_fail(cat, sv, 0);
            sv.len() > 0 && 0 <= ff && sv[ff].0 == 0
        },
        EngineError::UnknownDevice { key } => {
            let ff = first_fail(cat, sv, 0);
            ||| (sv.len() == 0 && resolve_in(cat, dkey) is None && key@ == dkey)
            ||| (sv.len() > 0 && 0 <= ff && sv[ff].0 >= 1 && resolve_in(cat, sv[ff].1) is None
                && key@ == sv[ff].1)
        },
        _ => false,
    }
}

proof fn lemma_first_fail_step(cat: Seq<DeviceView>, sv: Seq<(int, Seq<char>)>, k: int, i: int)
    requires
        0 <= k <= i <= sv.len(),
        forall|j: int| k <= j < i ==> spec_ok(cat, #[trigger] sv[j]),
    ensures
        first_fail(cat, sv, k) == first_fail(cat, sv, i),
    decreases i - k,
{
    if k < i {
        lemma_first_fail_step(cat, sv, k + 1, i);
    }
}

proof fn lemma_counts_prefix(sv: Seq<(int, Seq<char>)>, i: int)
    requires
        0 <= i <= sv.len(),
        forall|j: int| 0 <= j < sv.len() ==> (#[trigger] sv[j]).0 >= 0,
    ensures
        counts_total(sv.take(i)) <= counts_total(sv),
        counts_total(sv.take(i)) >= 0,
    decreases sv.len() - i,
{
    if i == sv.len() {
        assert(sv.take(i) =~= sv);
        lemma_counts_nonneg(sv);
    } else {
        assert(sv.take(i + 1).drop_last() =~= sv.take(i));
        assert(sv.take(i + 1).last() == sv[i]);
        lemma_counts_prefix(sv, i + 1);
        lemma_counts_nonneg(sv.take(i));
    }
}

proof fn lemma_counts_nonneg(sv: Seq<(int, Seq<char>)>)
    requires
        forall|j: int| 0 <= j < sv.len() ==> (#[trigger] sv[j]).0 >= 0,
    ensures
        counts_total(sv) >= 0,
    decreases sv.len(),
{
    if sv.len() > 0 {
        assert(forall|j: int| 0 <= j < sv.len() - 1 ==> #[trigger] sv.drop_last()[j] == sv[j]);
        lemma_counts_nonneg(sv.drop_last());
    }
}

/// Resolves each specification against the catalog and aggregates the
/// endpoint; with no specifications, applies exactly one default pair.
/// Unknown keys and zero counts are reported, never skipped.
pub fn build_endpoint(
    catalog: &DeviceCatalog,
    specs: &Vec<(u64, String)>,
    default_count: u64,
    default_key: &String,
) -> (r: Result<Endpoint, EngineError>)
    requires
        catalog.wf(),
        counts_total(specs_view(*specs)) <= MAX_TOTAL_COUNT,
        1 <= default_count <= MAX_TOTAL_COUNT,
    ensures
        ({
            let cat = catalog@;
            let sv = specs_view(*specs);
            match r {
                Ok(ep) => {
                    &&& ep.wf()
                    &&& ep@.len() >= 1
                    &&& build_ok(cat, sv, default_key@)
                    &&& ep@ == built_view(cat, sv, default_count as int, default_key@)
                },
                Err(e) => build_err_matches(cat, sv, default_key@, e),
            }
        }),
{
    let ghost cat = catalog@;
    let ghost sv = specs_view(*specs);
    let mut ep = Endpoint::new();
    proof {
        assert(contribs(ep@) =~= Seq::<(int, int, int)>::empty());
    }
    if specs.len() == 0 {
        match catalog.resolve(default_key) {
            Some(d) => {
                proof {
                    lemma_resolve_wf(cat, default_key@, d@);
                }
                let ghost dv = d@;
                match ep.add(d, default_count) {
                    Ok(()) => {},
                    Err(e) => {
                        proof {
                            assert(false);
                        }
                        return Err(e);
                    },
                }
                proof {
                    assert(ep@ =~= built_view(cat, sv, default_count as int, default_key@));
                }
                Ok(ep)
            },
            None => Err(EngineError::UnknownDevice { key: default_key.clone() }),
        }
    } else {
        let n = specs.len();
        let mut i: usize = 0;
        proof {
            assert(forall|j: int| 0 <= j < sv.len() ==> (#[trigger] sv[j]).0 >= 0);
            assert(built_view(cat, sv, default_count as int, default_key@).take(0)
                =~= Seq::<(DeviceView, int)>::empty());
        }
        while i < n
            invariant
                i <= n,
                n == specs.len(),
                n > 0,
                cat == catalog@,
                sv == specs_view(*specs),
                catalog.wf(),
                counts_total(sv) <= MAX_TOTAL_COUNT,
                forall|j: int| 0 <= j < sv.len() ==> (#[trigger] sv[j]).0 >= 0,
                forall|j: int| 0 <= j < i ==> spec_ok(cat, #[trigger] sv[j]),
                ep.wf(),
                ep@ == built_view(cat, sv, default_count as int, default_key@).take(i as int),
                total_count(contribs(ep@)) == counts_total(sv.take(i as int)),
            decreases n - i,
        {
            let ghost bv = built_view(cat, sv, default_count as int, default_key@);
            let count = specs[i].0;
            proof {
                assert(sv[i as int] == (specs[i as int].0 as int, specs[i as int].1@));
            }
            if count == 0 {
                proof {
                    lemma_first_fail_step(cat, sv, 0, i as int);
                }
                return Err(EngineError::InvalidCount);
            }
            match catalog.resolve(&specs[i].1) {
                Some(d) => {
                    proof {
                        lemma_resolve_wf(cat, sv[i as int].1, d@);
                        lemma_counts_prefix(sv, i + 1);
                        assert(sv.take(i + 1).drop_last() =~= sv.take(i as int));
                        assert(sv.take(i + 1).last() == sv[i as int]);
                    }
                    let ghost dv = d@;
                    let ghost before = ep@;
                    match ep.add(d, count) {
                        Ok(()) => {},
                        Err(e) => {
                            proof {
                                assert(false);
                            }
                            return Err(e);
                        },
                    }
                    proof {
                        assert(ep@ =~= bv.take(i + 1)) by {
                            assert(ep@ == before.push((dv, count as int)));
                            assert(bv[i as int] == (dv, count as int));
                        }
                        assert(contribs(ep@).drop_last() =~= contribs(before));
                        assert(contribs(ep@).last() == (dv.power, dv.exp_q, count as int));
                    }
                },
                None => {
                    proof {
                        lemma_first_fail_step(cat, sv, 0, i as int);
                    }
                    return Err(EngineError::UnknownDevice { key: specs[i].1.clone() });
                },
            }
            i = i + 1;
        }
        proof {
            lemma_first_fail_step(cat, sv, 0, n as int);
            assert(built_view(cat, sv, default_count as int, default_key@).take(n as int)
                =~= built_view(cat, sv, default_count as int, default_key@));
        }
        Ok(ep)
    }
}

/// Everything one run yields: both endpoints with their combined
/// powers, the maximum distance, and the signal table.
pub struct RunOutcome {
    pub from: Endpoint,
    pub to: Endpoint,
    pub from_power: u64,
    pub to_power: u64,
    pub max_distance: u64,
    pub table: Vec<SignalEntry>,
}

/// Builds both endpoints, combines their powers, derives the maximum
/// distance and evaluates the band table.  Fails exactly when either
/// endpoint's specifications fail to build.
pub fn run(
    catalog: &DeviceCatalog,
    table: &BandTable,
    from_specs: &Vec<(u64, String)>,
    to_specs: &Vec<(u64, String)>,
    default_from: &(u64, String),
    default_to: &(u64, String),
) -> (r: Result<RunOutcome, EngineError>)
    requires
        catalog.wf(),
        table.wf(),
        counts_total(specs_view(*from_specs)) <= MAX_TOTAL_COUNT,
        counts_total(specs_view(*to_specs)) <= MAX_TOTAL_COUNT,
        1 <= default_from.0 <= MAX_TOTAL_COUNT,
        1 <= default_to.0 <= MAX_TOTAL_COUNT,
    ensures
        ({
            let cat = catalog@;
            let svf = specs_view(*from_specs);
            let svt = specs_view(*to_specs);
            match r {
                Ok(o) => {
                    &&& o.from@ == built_view(cat, svf, default_from.0 as int, default_from.1@)
                    &&& o.to@ == built_view(cat, svt, default_to.0 as int, default_to.1@)
                    &&& o.from@.len() >= 1 && o.to@.len() >= 1
                    &&& o.from_power == combined_spec(contribs(o.from@))
                    &&& o.to_power == combined_spec(contribs(o.to@))
                    &&& o.max_distance == max_distance_spec(o.from_power as int, o.to_power as int)
                    &&& o.table@.len() == table@.len()
                    &&& forall|i: int| 0 <= i < o.table@.len()
                        ==> entry_matches(#[trigger] o.table@[i], table@[i], o.max_distance as int)
                },
                Err(e) => {
                    ||| build_err_matches(cat, svf, default_from.1@, e)
                    ||| (build_ok(cat, svf, default_from.1@)
                        && build_err_matches(cat, svt, default_to.1@, e))
                },
            }
        }),
{
    let from = match build_endpoint(catalog, from_specs, default_from.0, &default_from.1) {
        Ok(ep) => ep,
        Err(e) => {
            return Err(e);
        },
    };
    let to = match build_endpoint(catalog, to_specs, default_to.0, &default_to.1) {
        Ok(ep) => ep,
        Err(e) => {
            return Err(e);
        },
    };
    let from_power = from.combined_power();
    let to_power = to.combined_power();
    let md = max_distance(from_power, to_power);
    let entries = table.evaluate(md);
    Ok(RunOutcome {
        from,
        to,
        from_power,
        to_power,
        max_distance: md,
        table: entries,
    })
}

} // verus!
