//! Planning of the import graph traversal: from the entry paths and what
//! each stored module imports, which modules a bundle holds and in which
//! order they were first reached, or why the bundle fails.
use vstd::prelude::*;
use crate::filesystem::{entries_view, keys_unique};
use crate::resolver::{is_relative, resolve, resolved_path, ResolveError};

verus! {

/// Why a bundle fails. Every failure ends the whole bundle.
#[derive(Debug, PartialEq, Eq)]
pub enum BundleError {
    /// No entry was given.
    NoEntries,
    /// A module imports this specifier, which does not start with `.`.
    InvalidSpecifier(String),
    /// This path was reached but no module is stored under it.
    FileNotFound(String),
    /// The module at this path (first field) did not parse; the second field
    /// says why.
    ParseError(String, String),
}

/// A stored module as the traversal sees it: its path, and either the
/// specifiers that its import and re-export statements name, in order, or
/// the reason it failed to parse.
pub struct ModuleSource {
    pub path: String,
    pub imports: Result<Vec<String>, String>,
}

/// The views of a sequence of strings.
pub open spec fn str_views(s: Seq<String>) -> Seq<Seq<char>> {
    s.map_values(|x: String| x@)
}

/// The specifiers that `m` imports (none if it failed to parse).
pub open spec fn import_specs(m: ModuleSource) -> Seq<Seq<char>> {
    match m.imports {
        Ok(v) => str_views(v@),
        Err(_) => Seq::empty(),
    }
}

/// Some module is stored under `p`.
pub open spec fn path_in(mods: Seq<ModuleSource>, p: Seq<char>) -> bool {
    exists|i: int| 0 <= i < mods.len() && mods[i].path@ == p
}

/// A module that parsed is stored under `p`.
pub open spec fn parsed_path(mods: Seq<ModuleSource>, p: Seq<char>) -> bool {
    exists|i: int| 0 <= i < mods.len() && mods[i].path@ == p && (#[trigger] mods[i].imports) is Ok
}

/// No two modules share a path.
pub open spec fn paths_unique(mods: Seq<ModuleSource>) -> bool {
    forall|i: int, j: int| 0 <= i < j < mods.len() ==> mods[i].path@ != mods[j].path@
}

/// `q` is what some import of some module resolves to.
pub open spec fn is_target(mods: Seq<ModuleSource>, q: Seq<char>) -> bool {
    exists|i: int, j: int|
        0 <= i < mods.len() && 0 <= j < import_specs(mods[i]).len() && is_relative(
            #[trigger] import_specs(mods[i])[j],
        ) && resolved_path(mods[i].path@, import_specs(mods[i])[j]) == q
}

/// Some import of the module stored under `from` resolves to `to`.
pub open spec fn imported_by(mods: Seq<ModuleSource>, from: Seq<char>, to: Seq<char>) -> bool {
    exists|i: int, j: int|
        0 <= i < mods.len() && mods[i].path@ == from && 0 <= j < import_specs(mods[i]).len()
            && is_relative(#[trigger] import_specs(mods[i])[j]) && resolved_path(
            from,
            import_specs(mods[i])[j],
        ) == to
}

/// `q` is an entry or is imported by one of the modules of `order`.
pub open spec fn known(
    mods: Seq<ModuleSource>,
    entries: Seq<Seq<char>>,
    order: Seq<Seq<char>>,
    q: Seq<char>,
) -> bool {
    entries.contains(q) || exists|k: int| 0 <= k < order.len() && imported_by(mods, #[trigger] order[k], q)
}

/// Each path of `order` is an entry or is imported by a module that comes
/// before it: nothing that the entries do not reach is planned.
pub open spec fn reached_in_order(
    mods: Seq<ModuleSource>,
    entries: Seq<Seq<char>>,
    order: Seq<Seq<char>>,
) -> bool {
    forall|k: int| 0 <= k < order.len() ==> known(mods, entries, order.take(k), #[trigger] order[k])
}

/// Every module parsed, and every import it makes is relative and resolves
/// to a stored module.
pub open spec fn table_complete(mods: Seq<ModuleSource>) -> bool {
    forall|i: int|
        #![trigger mods[i]]
        0 <= i < mods.len() ==> mods[i].imports is Ok && forall|j: int|
            0 <= j < import_specs(mods[i]).len() ==> is_relative(
                #[trigger] import_specs(mods[i])[j],
            ) && path_in(mods, resolved_path(mods[i].path@, import_specs(mods[i])[j]))
}

/// `order` holds every module reached from the entries: each stored module
/// that parsed, and each import of each of them resolves to a path in
/// `order`.
pub open spec fn closed_under_imports(mods: Seq<ModuleSource>, order: Seq<Seq<char>>) -> bool {
    &&& forall|k: int| 0 <= k < order.len() ==> parsed_path(mods, #[trigger] order[k])
    &&& forall|i: int, j: int|
        0 <= i < mods.len() && order.contains(mods[i].path@) && 0 <= j < import_specs(
            mods[i],
        ).len() ==> is_relative(#[trigger] import_specs(mods[i])[j]) && order.contains(
            resolved_path(mods[i].path@, import_specs(mods[i])[j]),
        )
}

/// What planning a bundle from `entries` over `mods` gives: `NoEntries`
/// exactly when no entry is given; success whenever every entry is stored
/// and every module parses with only resolvable imports; on success the
/// paths reached, each once, holding every entry and closed under imports;
/// on failure the reason, which names a reached path or an offending import.
pub open spec fn plan_outcome(
    mods: Seq<ModuleSource>,
    entries: Seq<String>,
    r: Result<Vec<String>, BundleError>,
) -> bool {
    &&& (r == Err::<Vec<String>, BundleError>(BundleError::NoEntries)) <==> entries.len() == 0
    &&& entries.len() > 0 && table_complete(mods) && (forall|e: int|
        0 <= e < entries.len() ==> path_in(mods, #[trigger] entries[e]@)) ==> r is Ok
    &&& match r {
        Ok(order) => {
            &&& str_views(order@).no_duplicates()
            &&& forall|e: int|
                0 <= e < entries.len() ==> str_views(order@).contains(#[trigger] entries[e]@)
            &&& closed_under_imports(mods, str_views(order@))
            &&& reached_in_order(mods, str_views(entries), str_views(order@))
        },
        Err(BundleError::NoEntries) => true,
        Err(BundleError::FileNotFound(p)) => !path_in(mods, p@) && (str_views(entries).contains(
            p@,
        ) || is_target(mods, p@)),
        Err(BundleError::ParseError(p, d)) => exists|i: int|
            0 <= i < mods.len() && mods[i].path@ == p@ && (#[trigger] mods[i].imports) == Err::<
                Vec<String>,
                String,
            >(d),
        Err(BundleError::InvalidSpecifier(s)) => !is_relative(s@) && exists|i: int, j: int|
            0 <= i < mods.len() && 0 <= j < import_specs(mods[i]).len() && #[trigger] import_specs(
                mods[i],
            )[j] == s@,
    }
}

/// The table that pairs each file of `files` with its parse result.
pub open spec fn table_of(
    files: Seq<(String, String)>,
    parsed: Seq<Result<Vec<String>, String>>,
) -> Seq<ModuleSource> {
    Seq::new(files.len(), |i: int| ModuleSource { path: files[i].0, imports: parsed[i] })
}

fn find_module(mods: &Vec<ModuleSource>, p: &String) -> (r: Option<usize>)
    ensures
        match r {
            Some(i) => i < mods@.len() && mods@[i as int].path@ == p@,
            None => !path_in(mods@, p@),
        },
{
    let mut i: usize = 0;
    while i < mods.len()
        invariant
            i <= mods@.len(),
            forall|k: int| 0 <= k < i ==> mods@[k].path@ != p@,
        decreases mods.len() - i,
    {
        if mods[i].path == *p {
            return Some(i);
        }
        i = i + 1;
    }
    None
}

fn contains_path(order: &Vec<String>, p: &String) -> (r: bool)
    ensures
        r == str_views(order@).contains(p@),
{
    let mut i: usize = 0;
    while i < order.len()
        invariant
            i <= order@.len(),
            forall|k: int| 0 <= k < i ==> order@[k]@ != p@,
        decreases order.len() - i,
    {
        if order[i] == *p {
            assert(str_views(order@)[i as int] == p@);
            return true;
        }
        i = i + 1;
    }
    proof {
        if str_views(order@).contains(p@) {
            let k = choose|k: int| 0 <= k < order@.len() && str_views(order@)[k] == p@;
            assert(order@[k]@ == p@);
        }
    }
    false
}

proof fn lemma_visited_bounded(order: Seq<Seq<char>>, mods: Seq<ModuleSource>)
    requires
        order.no_duplicates(),
        forall|k: int| 0 <= k < order.len() ==> path_in(mods, #[trigger] order[k]),
    ensures
        order.len() <= mods.len(),
{
    let paths = mods.map_values(|m: ModuleSource| m.path@);
    order.unique_seq_to_set();
    paths.lemma_cardinality_of_set();
    assert(order.to_set().subset_of(paths.to_set())) by {
        assert forall|p: Seq<char>| order.to_set().contains(p) implies paths.to_set().contains(
            p,
        ) by {
            let k = choose|k: int| 0 <= k < order.len() && order[k] == p;
            assert(path_in(mods, order[k]));
            let i = choose|i: int| 0 <= i < mods.len() && mods[i].path@ == order[k];
            assert(paths[i] == p);
        }
    }
    broadcast use vstd::seq_lib::seq_to_set_is_finite;
    vstd::set_lib::lemma_len_subset(order.to_set(), paths.to_set());
}

proof fn lemma_paths_in(mods: Seq<ModuleSource>, order: Seq<Seq<char>>)
    requires
        forall|k: int| 0 <= k < order.len() ==> parsed_path(mods, #[trigger] order[k]),
    ensures
        forall|k: int| 0 <= k < order.len() ==> path_in(mods, #[trigger] order[k]),
{
    assert forall|k: int| 0 <= k < order.len() implies path_in(mods, #[trigger] order[k]) by {
        assert(parsed_path(mods, order[k]));
    }
}

proof fn lemma_known_grows(
    mods: Seq<ModuleSource>,
    entries: Seq<Seq<char>>,
    order: Seq<Seq<char>>,
    p: Seq<char>,
    q: Seq<char>,
)
    requires
        known(mods, entries, order, q),
    ensures
        known(mods, entries, order.push(p), q),
{
    if !entries.contains(q) {
        let k = choose|k: int| 0 <= k < order.len() && imported_by(mods, #[trigger] order[k], q);
        assert(order.push(p)[k] == order[k]);
    }
}

proof fn lemma_reached_grows(
    mods: Seq<ModuleSource>,
    entries: Seq<Seq<char>>,
    order: Seq<Seq<char>>,
    p: Seq<char>,
)
    requires
        reached_in_order(mods, entries, order),
        known(mods, entries, order, p),
    ensures
        reached_in_order(mods, entries, order.push(p)),
{
    let o2 = order.push(p);
    assert forall|k: int| 0 <= k < o2.len() implies known(mods, entries, o2.take(k), #[trigger] o2[k]) by {
        if k < order.len() {
            assert(o2.take(k) =~= order.take(k));
            assert(o2[k] == order[k]);
        } else {
            assert(o2.take(k) =~= order);
        }
    }
}

proof fn lemma_imported_is_target(mods: Seq<ModuleSource>, from: Seq<char>, q: Seq<char>)
    requires
        imported_by(mods, from, q),
    ensures
        is_target(mods, q),
{
    let (i, j) = choose|i: int, j: int|
        0 <= i < mods.len() && mods[i].path@ == from && 0 <= j < import_specs(mods[i]).len()
            && is_relative(#[trigger] import_specs(mods[i])[j]) && resolved_path(
            from,
            import_specs(mods[i])[j],
        ) == q;
    assert(is_relative(import_specs(mods[i])[j]));
}

/// Pairs each stored file with what parsing it gave, in the same order.
pub fn module_table(files: &Vec<(String, String)>, parsed: Vec<Result<Vec<String>, String>>) -> (r:
    Vec<ModuleSource>)
    requires
        keys_unique(entries_view(files@)),
        files@.len() == parsed@.len(),
    ensures
        paths_unique(r@),
        r@ == table_of(files@, parsed@),
{
    let mut rest = parsed;
    let ghost all = rest@;
    let mut r: Vec<ModuleSource> = Vec::new();
    let mut i: usize = 0;
    while i < files.len()
        invariant
            i <= files@.len(),
            files@.len() == all.len(),
            rest@ == all.subrange(i as int, all.len() as int),
            r@.len() == i,
            forall|k: int|
                0 <= k < i ==> (#[trigger] r@[k]).path == files@[k].0 && r@[k].imports
                    == all[k],
        decreases files.len() - i,
    {
        let imports = rest.remove(0);
        assert(rest@ =~= all.subrange(i + 1, all.len() as int));
        r.push(ModuleSource { path: files[i].0.clone(), imports });
        i = i + 1;
    }
    assert forall|a: int, b: int| 0 <= a < b < r@.len() implies r@[a].path@ != r@[b].path@ by {
        assert(entries_view(files@)[a].0 == files@[a].0@);
        assert(entries_view(files@)[b].0 == files@[b].0@);
    }
    assert(r@ =~= table_of(files@, all));
    r
}

/// Walks the import graph from `entries`, first reached first, loading each
/// path at most once, and returns the paths of the modules that the bundle
/// holds in the order in which they were first reached. The walk ends on
/// cyclic graphs too: a path already reached is not walked again.
pub fn plan_bundle(mods: &Vec<ModuleSource>, entries: &Vec<String>) -> (r: Result<
    Vec<String>,
    BundleError,
>)
    requires
        paths_unique(mods@),
    ensures
        plan_outcome(mods@, entries@, r),
{
    if entries.len() == 0 {
        return Err(BundleError::NoEntries);
    }
    let ghost ev = str_views(entries@);
    let mut pending: Vec<String> = Vec::new();
    let mut e: usize = 0;
    while e < entries.len()
        invariant
            e <= entries@.len(),
            ev == str_views(entries@),
            str_views(pending@) == ev.take(e as int),
        decreases entries.len() - e,
    {
        let c = entries[e].clone();
        let ghost before = pending@;
        pending.push(c);
        assert(pending@ =~= before.push(c));
        assert(str_views(pending@) =~= str_views(before).push(c@));
        assert(str_views(pending@) =~= ev.take(e + 1));
        e = e + 1;
    }
    assert(ev.take(e as int) =~= ev);
    assert(str_views(pending@) =~= ev);
    assert forall|m: int| 0 <= m < pending@.len() implies ev.contains(#[trigger] pending@[m]@) by {
        assert(ev[m] == pending@[m]@);
    }
    assert(str_views(pending@).take(ev.len() as int) =~= ev);
    let mut order: Vec<String> = Vec::new();
    let mut head: usize = 0;
    while head < pending.len()
        invariant
            head <= pending@.len(),
            entries@.len() > 0,
            paths_unique(mods@),
            ev == str_views(entries@),
            str_views(pending@).take(ev.len() as int) == ev,
            ev.len() <= pending@.len(),
            str_views(order@).no_duplicates(),
            forall|k: int|
                0 <= k < order@.len() ==> parsed_path(mods@, #[trigger] str_views(order@)[k]),
            forall|m: int|
                0 <= m < pending@.len() ==> known(
                    mods@,
                    ev,
                    str_views(order@),
                    #[trigger] pending@[m]@,
                ),
            reached_in_order(mods@, ev, str_views(order@)),
            forall|m: int| 0 <= m < head ==> str_views(order@).contains(#[trigger] pending@[m]@),
            forall|i: int, j: int|
                0 <= i < mods@.len() && str_views(order@).contains(mods@[i].path@) && 0 <= j
                    < import_specs(mods@[i]).len() ==> is_relative(
                    #[trigger] import_specs(mods@[i])[j],
                ) && str_views(pending@).contains(
                    resolved_path(mods@[i].path@, import_specs(mods@[i])[j]),
                ),
        decreases mods@.len() - order@.len(), pending@.len() - head,
    {
        proof {
            lemma_paths_in(mods@, str_views(order@));
            lemma_visited_bounded(str_views(order@), mods@);
        }
        let p = pending[head].clone();
        let ghost h = head;
        head = head + 1;
        if contains_path(&order, &p) {
            proof {
                assert forall|m: int| 0 <= m < head implies str_views(order@).contains(
                    #[trigger] pending@[m]@,
                ) by {
                    if m == h {
                        assert(pending@[m]@ == p@);
                    }
                }
            }
            continue;
        }
        let i0 = match find_module(mods, &p) {
            Some(i) => i,
            None => {
                proof {
                    assert(pending@[h as int]@ == p@);
                    assert(known(mods@, ev, str_views(order@), p@));
                    if !ev.contains(p@) {
                        let k = choose|k: int|
                            0 <= k < str_views(order@).len() && imported_by(
                                mods@,
                                #[trigger] str_views(order@)[k],
                                p@,
                            );
                        lemma_imported_is_target(mods@, str_views(order@)[k], p@);
                    }
                }
                return Err(BundleError::FileNotFound(p));
            },
        };
        let ghost old_order = str_views(order@);
        order.push(p.clone());
        proof {
            assert(str_views(order@) =~= old_order.push(p@));
            assert(pending@[h as int]@ == p@);
            lemma_reached_grows(mods@, ev, old_order, p@);
            assert forall|m: int| 0 <= m < pending@.len() implies known(
                mods@,
                ev,
                str_views(order@),
                #[trigger] pending@[m]@,
            ) by {
                lemma_known_grows(mods@, ev, old_order, p@, pending@[m]@);
            }
            assert(str_views(order@).contains(p@)) by {
                assert(str_views(order@)[old_order.len() as int] == p@);
            }
            assert forall|x: Seq<char>| old_order.contains(x) implies str_views(order@).contains(x) by {
                let k = choose|k: int| 0 <= k < old_order.len() && old_order[k] == x;
                assert(str_views(order@)[k] == x);
            }
        }
        match &mods[i0].imports {
            Err(detail) => {
                return Err(BundleError::ParseError(p, detail.clone()));
            },
            Ok(specs) => {
                let ghost sv = str_views(specs@);
                assert(import_specs(mods@[i0 as int]) == sv);
                proof {
                    assert forall|i: int, jj: int|
                        0 <= i < mods@.len() && i != i0 && str_views(order@).contains(
                            mods@[i].path@,
                        ) && 0 <= jj < import_specs(mods@[i]).len() implies is_relative(
                        #[trigger] import_specs(mods@[i])[jj],
                    ) && str_views(pending@).contains(
                        resolved_path(mods@[i].path@, import_specs(mods@[i])[jj]),
                    ) by {
                        if i < i0 {
                            assert(mods@[i].path@ != mods@[i0 as int].path@);
                        } else {
                            assert(mods@[i0 as int].path@ != mods@[i].path@);
                        }
                        let k = choose|k: int|
                            0 <= k < str_views(order@).len() && str_views(order@)[k]
                                == mods@[i].path@;
                        assert(k < old_order.len());
                        assert(old_order[k] == mods@[i].path@);
                    }
                    assert forall|k: int|
                        0 <= k < order@.len() implies parsed_path(
                        mods@,
                        #[trigger] str_views(order@)[k],
                    ) by {
                        if k == old_order.len() {
                            assert(mods@[i0 as int].imports is Ok);
                            assert(str_views(order@)[k] == p@);
                        } else {
                            assert(str_views(order@)[k] == old_order[k]);
                        }
                    }
                    assert forall|m: int| 0 <= m < head implies str_views(order@).contains(
                        #[trigger] pending@[m]@,
                    ) by {
                        if m == h {
                            assert(pending@[m]@ == p@);
                        }
                    }
                }
                let mut j: usize = 0;
                while j < specs.len()
                    invariant
                        j <= specs@.len(),
                        sv == str_views(specs@),
                        import_specs(mods@[i0 as int]) == sv,
                        i0 < mods@.len(),
                        mods@[i0 as int].path@ == p@,
                        mods@[i0 as int].imports is Ok,
                        str_views(order@).contains(p@),
                        entries@.len() > 0,
                        ev == str_views(entries@),
                        str_views(order@).no_duplicates(),
                        forall|k: int|
                            0 <= k < order@.len() ==> parsed_path(
                                mods@,
                                #[trigger] str_views(order@)[k],
                            ),
                        h < pending@.len(),
                        pending@[h as int]@ == p@,
                        head == h + 1,
                        head <= pending@.len(),
                        paths_unique(mods@),
                        str_views(pending@).take(ev.len() as int) == ev,
                        ev.len() <= pending@.len(),
                        forall|m: int|
                            0 <= m < pending@.len() ==> known(
                                mods@,
                                ev,
                                str_views(order@),
                                #[trigger] pending@[m]@,
                            ),
                        reached_in_order(mods@, ev, str_views(order@)),
                        str_views(order@).last() == p@,
                        str_views(order@).len() > 0,
                        forall|m: int|
                            0 <= m < head ==> str_views(order@).contains(#[trigger] pending@[m]@),
                        forall|jj: int|
                            0 <= jj < j ==> is_relative(#[trigger] sv[jj]) && str_views(
                                pending@,
                            ).contains(resolved_path(p@, sv[jj])),
                        forall|i: int, jj: int|
                            0 <= i < mods@.len() && i != i0 && str_views(order@).contains(
                                mods@[i].path@,
                            ) && 0 <= jj < import_specs(mods@[i]).len() ==> is_relative(
                                #[trigger] import_specs(mods@[i])[jj],
                            ) && str_views(pending@).contains(
                                resolved_path(mods@[i].path@, import_specs(mods@[i])[jj]),
                            ),
                    decreases specs.len() - j,
                {
                    assert(sv[j as int] == specs@[j as int]@);
                    match resolve(p.as_str(), specs[j].as_str()) {
                        Err(ResolveError::InvalidSpecifier(s)) => {
                            return Err(BundleError::InvalidSpecifier(s));
                        },
                        Ok(q) => {
                            let ghost old_pending = pending@;
                            pending.push(q);
                            proof {
                                assert(pending@ =~= old_pending.push(q));
                                assert(str_views(pending@) =~= str_views(old_pending).push(q@));
                                assert(str_views(pending@).take(ev.len() as int) =~= str_views(
                                    old_pending,
                                ).take(ev.len() as int));
                                assert(imported_by(mods@, p@, q@)) by {
                                    assert(import_specs(mods@[i0 as int])[j as int] == sv[j as int]);
                                }
                                let last = str_views(order@).len() - 1;
                                assert(str_views(order@)[last] == p@);
                                assert(known(mods@, ev, str_views(order@), q@));
                                assert forall|m: int| 0 <= m < pending@.len() implies known(
                                    mods@,
                                    ev,
                                    str_views(order@),
                                    #[trigger] pending@[m]@,
                                ) by {
                                    if m < old_pending.len() {
                                        assert(pending@[m] == old_pending[m]);
                                    }
                                }
                                assert forall|x: Seq<char>|
                                    str_views(old_pending).contains(x) implies str_views(
                                    pending@,
                                ).contains(x) by {
                                    let k = choose|k: int|
                                        0 <= k < old_pending.len() && str_views(old_pending)[k]
                                            == x;
                                    assert(str_views(pending@)[k] == x);
                                }
                                assert(str_views(pending@)[old_pending.len() as int] == q@);
                            }
                        },
                    }
                    j = j + 1;
                }
                proof {
                    assert forall|i: int, jj: int|
                        0 <= i < mods@.len() && str_views(order@).contains(mods@[i].path@) && 0 <= jj
                            < import_specs(mods@[i]).len() implies is_relative(
                        #[trigger] import_specs(mods@[i])[jj],
                    ) && str_views(pending@).contains(
                        resolved_path(mods@[i].path@, import_specs(mods@[i])[jj]),
                    ) by {
                        if i == i0 {
                            assert(import_specs(mods@[i]) == sv);
                        }
                    }
                }
            },
        }
        proof {
            assert forall|m: int| 0 <= m < head implies str_views(order@).contains(
                #[trigger] pending@[m]@,
            ) by {
                if m == h {
                    assert(pending@[m]@ == p@);
                }
            }
            lemma_paths_in(mods@, str_views(order@));
            lemma_visited_bounded(str_views(order@), mods@);
        }
    }
    proof {
        let ov = str_views(order@);
        let pv = str_views(pending@);
        assert forall|x: Seq<char>| pv.contains(x) implies ov.contains(x) by {
            let m = choose|m: int| 0 <= m < pv.len() && pv[m] == x;
            assert(ov.contains(pending@[m]@));
        }
        assert forall|e: int| 0 <= e < entries@.len() implies ov.contains(#[trigger] entries@[e]@) by {
            assert(ev[e] == entries@[e]@);
            assert(pv.take(ev.len() as int)[e] == pv[e]);
        }
    }
    Ok(order)
}

} // verus!
