//! Fleet management of assembly builds.
//!
//! Turns a directory's classified files into a deduplicated, ordered
//! catalog of build identities, and plans the install/swap of the
//! active build: when the outgoing file must be backed up and under
//! which name. Path strings use `/` as their separator; the caller
//! translates to platform paths at the I/O edge.

use vstd::prelude::*;
use crate::dll_classifier::{DllClassification, RandoVersion, version_le};
use crate::text::{spec_file_name, file_name_of, str_eq};

verus! {

/// The managed directory of a game installation.
#[derive(Debug, Clone)]
pub struct GameDir {
    pub managed: String,
}

impl GameDir {
    /// Appends the fixed game-data and managed-assembly components to
    /// the installation directory.
    pub fn new(game_dir: String) -> (r: Self)
        ensures
            r.managed@ == game_dir@ + "/oriDE_Data/Managed"@,
    {
        let managed = game_dir.concat("/oriDE_Data/Managed");
        GameDir { managed }
    }
}

/// The catalog-eligible build kinds, ordered `Vanilla`, then versioned
/// randomizer builds by ascending version, then unversioned builds by
/// ascending content hash.
#[derive(Debug, Copy, Clone, Eq, PartialEq, Ord, PartialOrd, Structural)]
pub enum OriDllKind {
    Vanilla,
    Rando(RandoVersion),
    UnknownRando(u64),
}

/// A cataloged build: its kind, the path of its file, and the name
/// shown to the user.
#[derive(Debug, Eq, PartialEq)]
pub struct OriDll {
    pub kind: OriDllKind,
    pub path: String,
    pub display_name: String,
}

impl Clone for OriDll {
    fn clone(&self) -> (r: Self)
        ensures
            r == *self,
    {
        OriDll { kind: self.kind, path: self.path.clone(), display_name: self.display_name.clone() }
    }
}

/// The explicit total order over build kinds that deduplication relies
/// on: `Vanilla` first, then `Rando` by lexicographic version, then
/// `UnknownRando` by hash.
pub open spec fn kind_le(a: OriDllKind, b: OriDllKind) -> bool {
    match (a, b) {
        (OriDllKind::Vanilla, _) => true,
        (OriDllKind::Rando(x), OriDllKind::Rando(y)) => version_le(x, y),
        (OriDllKind::Rando(_), OriDllKind::UnknownRando(_)) => true,
        (OriDllKind::Rando(_), OriDllKind::Vanilla) => false,
        (OriDllKind::UnknownRando(x), OriDllKind::UnknownRando(y)) => x <= y,
        (OriDllKind::UnknownRando(_), _) => false,
    }
}

/// Strictly before in the build-kind order.
pub open spec fn kind_lt(a: OriDllKind, b: OriDllKind) -> bool {
    kind_le(a, b) && a != b
}

/// Exact comparison in the build-kind order.
pub fn kind_le_exec(a: &OriDllKind, b: &OriDllKind) -> (r: bool)
    ensures
        r == kind_le(*a, *b),
{
    match (a, b) {
        (OriDllKind::Vanilla, _) => true,
        (OriDllKind::Rando(x), OriDllKind::Rando(y)) => {
            x.major < y.major || (x.major == y.major && (x.minor < y.minor || (x.minor == y.minor
                && x.patch <= y.patch)))
        },
        (OriDllKind::Rando(_), OriDllKind::UnknownRando(_)) => true,
        (OriDllKind::Rando(_), OriDllKind::Vanilla) => false,
        (OriDllKind::UnknownRando(x), OriDllKind::UnknownRando(y)) => x <= y,
        (OriDllKind::UnknownRando(_), _) => false,
    }
}

/// The kind a catalog-eligible classification maps to.
pub open spec fn spec_kind_of(c: DllClassification) -> OriDllKind {
    match c {
        DllClassification::Rando(v) => OriDllKind::Rando(v),
        DllClassification::UnknownRando(h) => OriDllKind::UnknownRando(h),
        _ => OriDllKind::Vanilla,
    }
}

impl OriDll {
    /// Builds a catalog entry from a classified file: `None` for the
    /// catalog-ineligible classifications, otherwise the entry with
    /// the file's name as its display name.
    pub fn new(path: String, classification: DllClassification) -> (r: Option<Self>)
        ensures
            r is None <==> (classification is Invalid || classification is NonDe),
            r matches Some(dll) ==> {
                &&& dll.kind == spec_kind_of(classification)
                &&& dll.path@ == path@
                &&& dll.display_name@ == spec_file_name(path@)
            },
    {
        let kind = match classification {
            DllClassification::Invalid => {
                return None;
            },
            DllClassification::NonDe => {
                return None;
            },
            DllClassification::Vanilla => OriDllKind::Vanilla,
            DllClassification::Rando(v) => OriDllKind::Rando(v),
            DllClassification::UnknownRando(hash) => OriDllKind::UnknownRando(hash),
        };

        let display_name = file_name_of(path.as_str());

        Some(OriDll { display_name, path, kind })
    }
}

/// A catalog entry of this kind stands for the classified target: the
/// match that makes a backup unnecessary.
pub open spec fn kind_matches(k: OriDllKind, c: DllClassification) -> bool {
    match (k, c) {
        (OriDllKind::Vanilla, DllClassification::Vanilla) => true,
        (OriDllKind::Rando(a), DllClassification::Rando(b)) => a == b,
        (OriDllKind::UnknownRando(a), DllClassification::UnknownRando(b)) => a == b,
        _ => false,
    }
}

/// Some known entry away from the target path already preserves a
/// build of this classification.
pub open spec fn spec_copy_exists(
    target: Seq<char>,
    c: DllClassification,
    dlls: Seq<OriDll>,
) -> bool {
    exists|i: int|
        0 <= i < dlls.len() && (#[trigger] dlls[i]).path@ != target && kind_matches(dlls[i].kind, c)
}

/// Whether the file at the target path must be backed up before it is
/// replaced: exactly when no other known entry preserves a build of
/// the same identity.
pub fn should_backup_target(
    target: &str,
    target_classification: DllClassification,
    all_dlls: &[OriDll],
) -> (r: bool)
    ensures
        r == !spec_copy_exists(target@, target_classification, all_dlls@),
{
    let mut i: usize = 0;
    while i < all_dlls.len()
        invariant
            0 <= i <= all_dlls@.len(),
            forall|j: int|
                0 <= j < i ==> !((#[trigger] all_dlls@[j]).path@ != target@ && kind_matches(
                    all_dlls@[j].kind,
                    target_classification,
                )),
        decreases all_dlls@.len() - i,
    {
        let dll = &all_dlls[i];
        let path_differs = !str_eq(dll.path.as_str(), target);
        let matches = match (dll.kind, target_classification) {
            (OriDllKind::Vanilla, DllClassification::Vanilla) => true,
            (OriDllKind::Rando(a), DllClassification::Rando(b)) => a == b,
            (OriDllKind::UnknownRando(a), DllClassification::UnknownRando(b)) => a == b,
            _ => false,
        };
        if path_differs && matches {
            return false;
        }
        i = i + 1;
    }
    true
}

/// Replaces the remembered previous kind by `new` and tells whether
/// the previous one was structurally equal to it.
pub fn same_as_previous(previous: &mut Option<OriDllKind>, new: OriDllKind) -> (r: bool)
    ensures
        *final(previous) == Some(new),
        r == match *old(previous) {
            Some(p) => p == new,
            None => false,
        },
{
    let prev = *previous;
    *previous = Some(new);
    match prev {
        Some(p) => match (p, new) {
            (OriDllKind::Vanilla, OriDllKind::Vanilla) => true,
            (OriDllKind::Rando(a), OriDllKind::Rando(b)) => a == b,
            (OriDllKind::UnknownRando(a), OriDllKind::UnknownRando(b)) => a == b,
            _ => false,
        },
        None => false,
    }
}

/// The build-kind order is total and antisymmetric, so sorting by it
/// and collapsing equal neighbours leaves exactly one entry per kind.
pub proof fn lemma_kind_order(a: OriDllKind, b: OriDllKind)
    ensures
        kind_le(a, b) || kind_le(b, a),
        kind_le(a, b) && kind_le(b, a) ==> a == b,
{
}

/// The build-kind order is transitive.
pub proof fn lemma_kind_trans(a: OriDllKind, b: OriDllKind, c: OriDllKind)
    ensures
        kind_le(a, b) && kind_le(b, c) ==> kind_le(a, c),
{
}

/// Swapping two positions preserves which values a sequence holds.
proof fn lemma_swap_preserves_contains(s: Seq<OriDll>, t: Seq<OriDll>, i: int, j: int)
    requires
        0 <= i < s.len(),
        0 <= j < s.len(),
        t == s.update(i, s[j]).update(j, s[i]),
    ensures
        forall|x: OriDll| s.contains(x) <==> t.contains(x),
{
    assert forall|x: OriDll| s.contains(x) implies t.contains(x) by {
        let k = choose|k: int| 0 <= k < s.len() && s[k] == x;
        if k == i {
            assert(t[j] == x);
        } else if k == j {
            if i == j {
                assert(t[j] == x);
            } else {
                assert(t[i] == x);
            }
        } else {
            assert(t[k] == x);
        }
    }
    assert forall|x: OriDll| t.contains(x) implies s.contains(x) by {
        let k = choose|k: int| 0 <= k < t.len() && t[k] == x;
        if k == j {
            assert(s[i] == x);
        } else if k == i {
            assert(s[j] == x);
        } else {
            assert(s[k] == x);
        }
    }
}

/// Entries are pairwise distinct values, as they are when every
/// scanned file has its own path.
pub open spec fn pairwise_distinct(v: Seq<OriDll>) -> bool {
    forall|p: int, q: int| #![trigger v[p], v[q]] 0 <= p < q < v.len() ==> v[p] != v[q]
}

/// Every entry of `b`'s kind other than `b` itself stands before `b`.
pub open spec fn equal_kinds_precede(v: Seq<OriDll>, b: OriDll) -> bool {
    forall|p: int, q: int|
        #![trigger v[p], v[q]]
        0 <= p < v.len() && 0 <= q < v.len() && v[q] == b && v[p].kind == b.kind && v[p] != b
            ==> p < q
}

/// `e` is an entry of `inp` and no earlier entry shares its kind.
#[verifier::opaque]
pub open spec fn first_of_kind(inp: Seq<OriDll>, e: OriDll) -> bool {
    exists|p: int|
        {
            &&& 0 <= p < inp.len()
            &&& #[trigger] inp[p] == e
            &&& forall|p2: int| 0 <= p2 < p ==> (#[trigger] inp[p2]).kind != e.kind
        }
}

/// Some other entry of `inp` shares the kind of the entry at `ci`.
pub open spec fn has_duplicate_kind(inp: Seq<OriDll>, ci: int) -> bool {
    exists|j: int| 0 <= j < inp.len() && j != ci && (#[trigger] inp[j]).kind == inp[ci].kind
}

/// The catalog keeps a representative of `cur`'s kind that is not
/// `cur` itself.
pub open spec fn kind_represented_elsewhere(catalog: Seq<OriDll>, cur: OriDll) -> bool {
    exists|q: int|
        0 <= q < catalog.len() && (#[trigger] catalog[q]).kind == cur.kind && catalog[q] != cur
}

/// Swapping two positions keeps entries pairwise distinct.
proof fn lemma_swap_preserves_distinct(s: Seq<OriDll>, t: Seq<OriDll>, i: int, j: int)
    requires
        0 <= i < s.len(),
        0 <= j < s.len(),
        t == s.update(i, s[j]).update(j, s[i]),
        pairwise_distinct(s),
    ensures
        pairwise_distinct(t),
{
    assert forall|p: int, q: int| 0 <= p < q < t.len() implies t[p] != t[q] by {
        let sp = if p == j {
            i
        } else if p == i {
            j
        } else {
            p
        };
        let sq = if q == j {
            i
        } else if q == i {
            j
        } else {
            q
        };
        assert(t[p] == s[sp]);
        assert(t[q] == s[sq]);
        if sp < sq {
            assert(s[sp] != s[sq]);
        } else {
            assert(s[sq] != s[sp]);
        }
    }
}

/// Stable insertion sort by the build-kind order: an inserted entry
/// moves left only past entries of strictly greater kinds, so entries
/// of equal kinds never cross. In particular (for pairwise distinct
/// entries) everything of the last entry's kind still stands before
/// that entry afterwards.
#[verifier::loop_isolation(false)]
fn sort_by_kind(dlls: &mut Vec<OriDll>)
    ensures
        final(dlls)@.len() == old(dlls)@.len(),
        forall|p: int, q: int|
            0 <= p < q < final(dlls)@.len() ==> kind_le(
                (#[trigger] final(dlls)@[p]).kind,
                (#[trigger] final(dlls)@[q]).kind,
            ),
        forall|x: OriDll| old(dlls)@.contains(x) <==> final(dlls)@.contains(x),
        pairwise_distinct(old(dlls)@) ==> pairwise_distinct(final(dlls)@),
        pairwise_distinct(old(dlls)@) && old(dlls)@.len() > 0 ==> equal_kinds_precede(
            final(dlls)@,
            old(dlls)@.last(),
        ),
{
    let ghost inp = dlls@;
    let ghost dd = pairwise_distinct(inp);
    let len = dlls.len();
    if len <= 1 {
        return ;
    }
    let ghost last_entry = inp.last();
    let mut i: usize = 1;
    while i < len
        invariant
            1 <= i <= len,
            len == dlls@.len(),
            inp == old(dlls)@,
            len == inp.len(),
            dd == pairwise_distinct(inp),
            last_entry == inp.last(),
            forall|p: int, q: int|
                0 <= p < q < i ==> kind_le(
                    (#[trigger] dlls@[p]).kind,
                    (#[trigger] dlls@[q]).kind,
                ),
            forall|x: OriDll| old(dlls)@.contains(x) <==> dlls@.contains(x),
            forall|idx: int| i <= idx < len ==> dlls@[idx] == inp[idx],
            dd ==> pairwise_distinct(dlls@),
            i == len ==> (dd ==> equal_kinds_precede(dlls@, last_entry)),
        decreases len - i,
    {
        let ghost moving = dlls@[i as int];
        let mut j: usize = i;
        while j > 0 && !kind_le_exec(&dlls[j - 1].kind, &dlls[j].kind)
            invariant
                0 <= j <= i < len,
                len == dlls@.len(),
                dlls@[j as int] == moving,
                forall|p: int, q: int|
                    0 <= p < q <= i && q != j ==> kind_le(
                        (#[trigger] dlls@[p]).kind,
                        (#[trigger] dlls@[q]).kind,
                    ),
                forall|q: int|
                    j < q <= i ==> kind_lt(dlls@[j as int].kind, (#[trigger] dlls@[q]).kind),
                forall|x: OriDll| old(dlls)@.contains(x) <==> dlls@.contains(x),
                forall|idx: int| i < idx < len ==> dlls@[idx] == inp[idx],
                dd ==> pairwise_distinct(dlls@),
            decreases j,
        {
            let ghost pre = dlls@;
            proof {
                lemma_kind_order(pre[j as int - 1].kind, pre[j as int].kind);
            }
            let a = dlls[j - 1].clone();
            let b = dlls[j].clone();
            dlls[j - 1] = b;
            dlls[j] = a;
            proof {
                lemma_swap_preserves_contains(pre, dlls@, j as int - 1, j as int);
                if dd {
                    lemma_swap_preserves_distinct(pre, dlls@, j as int - 1, j as int);
                }
            }
            j = j - 1;
        }
        proof {
            if i == len - 1 && dd {
                assert(moving == last_entry);
                assert forall|p: int, q: int|
                    #![trigger dlls@[p], dlls@[q]]
                    0 <= p < dlls@.len() && 0 <= q < dlls@.len() && dlls@[q] == last_entry
                        && dlls@[p].kind == last_entry.kind && dlls@[p]
                        != last_entry implies p < q by {
                    if q != j {
                        if q < j as int {
                            assert(dlls@[q] != dlls@[j as int]);
                        } else {
                            assert(dlls@[j as int] != dlls@[q]);
                        }
                        assert(false);
                    }
                    if p > j as int {
                        assert(kind_lt(dlls@[j as int].kind, dlls@[p].kind));
                        assert(false);
                    }
                    if p == j as int {
                        assert(dlls@[p] == last_entry);
                        assert(false);
                    }
                }
            }
        }
        i = i + 1;
    }
}

/// No two entries share a kind and they come in the build-kind order.
pub open spec fn strictly_sorted_by_kind(v: Seq<OriDll>) -> bool {
    forall|p: int, q: int|
        0 <= p < q < v.len() ==> kind_lt((#[trigger] v[p]).kind, (#[trigger] v[q]).kind)
}

/// The entries come in the build-kind order, runs of equal kinds
/// allowed.
pub open spec fn sorted_by_kind(v: Seq<OriDll>) -> bool {
    forall|p: int, q: int|
        0 <= p < q < v.len() ==> kind_le((#[trigger] v[p]).kind, (#[trigger] v[q]).kind)
}

/// Every kind of the first `upto` entries of `inp` is represented in
/// `out`.
pub open spec fn kinds_covered(inp: Seq<OriDll>, upto: int, out: Seq<OriDll>) -> bool {
    forall|p: int|
        0 <= p < upto ==> exists|q: int|
            0 <= q < out.len() && (#[trigger] out[q]).kind == (#[trigger] inp[p]).kind
}

/// Appending an entry of a kind strictly above the last keeps a
/// catalog strictly sorted.
proof fn lemma_push_strictly_sorted(pre: Seq<OriDll>, e: OriDll)
    requires
        strictly_sorted_by_kind(pre),
        pre.len() > 0 ==> kind_lt(pre.last().kind, e.kind),
    ensures
        strictly_sorted_by_kind(pre.push(e)),
{
    let s = pre.push(e);
    let n = pre.len() as int;
    assert forall|p: int, q: int| 0 <= p < q < s.len() implies kind_lt(
        (#[trigger] s[p]).kind,
        (#[trigger] s[q]).kind,
    ) by {
        if q < n {
            assert(s[p] == pre[p] && s[q] == pre[q]);
        } else {
            assert(s[q] == e);
            if p < n - 1 {
                assert(pre[n - 1] == pre.last());
                assert(kind_lt(pre[p].kind, pre.last().kind));
                lemma_kind_trans(pre[p].kind, pre.last().kind, e.kind);
                if pre[p].kind == e.kind {
                    lemma_kind_order(pre[p].kind, pre.last().kind);
                    lemma_kind_order(pre.last().kind, e.kind);
                }
            } else {
                assert(s[p] == pre.last());
            }
        }
    }
}

/// In a sorted catalog, a change of kind between neighbours starts a
/// fresh kind: no earlier entry has the new one.
proof fn lemma_kind_boundary(inp: Seq<OriDll>, i: int)
    requires
        sorted_by_kind(inp),
        0 < i < inp.len(),
        inp[i - 1].kind != inp[i].kind,
    ensures
        forall|p2: int| 0 <= p2 < i ==> (#[trigger] inp[p2]).kind != inp[i].kind,
{
    assert forall|p2: int| 0 <= p2 < i implies (#[trigger] inp[p2]).kind != inp[i].kind by {
        if inp[p2].kind == inp[i].kind {
            assert(kind_le(inp[p2].kind, inp[i - 1].kind));
            assert(kind_le(inp[i - 1].kind, inp[i].kind));
            lemma_kind_order(inp[i - 1].kind, inp[i].kind);
            lemma_kind_order(inp[p2].kind, inp[i - 1].kind);
            assert(false);
        }
    }
}

/// Collapses runs of structurally equal adjacent kinds of a sorted
/// catalog: the first entry of each run is kept.
fn dedup_sorted(dlls: &mut Vec<OriDll>)
    requires
        sorted_by_kind(old(dlls)@),
    ensures
        strictly_sorted_by_kind(final(dlls)@),
        forall|q: int|
            0 <= q < final(dlls)@.len() ==> old(dlls)@.contains(#[trigger] final(dlls)@[q]),
        kinds_covered(old(dlls)@, old(dlls)@.len() as int, final(dlls)@),
        forall|q: int|
            0 <= q < final(dlls)@.len() ==> first_of_kind(old(dlls)@, #[trigger] final(dlls)@[q]),
{
    let ghost input = dlls@;
    let mut out: Vec<OriDll> = Vec::new();
    let mut prev_kind: Option<OriDllKind> = None;
    let mut i: usize = 0;

    while i < dlls.len()
        invariant
            0 <= i <= input.len(),
            input == dlls@,
            input == old(dlls)@,
            sorted_by_kind(input),
            prev_kind == (if i == 0 {
                Option::<OriDllKind>::None
            } else {
                Some(input[i as int - 1].kind)
            }),
            i == 0 ==> out@.len() == 0,
            i > 0 ==> out@.len() > 0 && out@.last().kind == input[i as int - 1].kind,
            strictly_sorted_by_kind(out@),
            forall|q: int| 0 <= q < out@.len() ==> input.contains(#[trigger] out@[q]),
            kinds_covered(input, i as int, out@),
            forall|q: int| 0 <= q < out@.len() ==> first_of_kind(input, #[trigger] out@[q]),
        decreases input.len() - i,
    {
        let ghost pre_out = out@;
        let dll = dlls[i].clone();
        let keep = !same_as_previous(&mut prev_kind, dll.kind);
        if keep {
            proof {
                if i > 0 {
                    assert(kind_le(input[i as int - 1].kind, input[i as int].kind));
                    lemma_kind_order(pre_out.last().kind, input[i as int].kind);
                    assert(kind_lt(pre_out.last().kind, input[i as int].kind));
                }
                assert(input.contains(input[i as int]));
                lemma_push_strictly_sorted(pre_out, dll);
            }
            out.push(dll);
            proof {
                let n = out@.len() as int - 1;
                assert(out@ == pre_out.push(dll));
                assert(out@[n] == dll);
                assert forall|q: int| 0 <= q < out@.len() implies input.contains(
                    #[trigger] out@[q],
                ) by {
                    if q < n {
                        assert(out@[q] == pre_out[q]);
                    }
                }
                if i > 0 {
                    lemma_kind_boundary(input, i as int);
                }
                assert(first_of_kind(input, dll)) by {
                    reveal(first_of_kind);
                    assert(input[i as int] == dll);
                }
                assert forall|q: int| 0 <= q < out@.len() implies first_of_kind(
                    input,
                    #[trigger] out@[q],
                ) by {
                    if q < n {
                        assert(out@[q] == pre_out[q]);
                    }
                }
                assert forall|p: int| 0 <= p < i + 1 implies exists|q: int|
                    0 <= q < out@.len() && (#[trigger] out@[q]).kind == (
                    #[trigger] input[p]).kind by {
                    if p < i {
                        let q0 = choose|q0: int|
                            0 <= q0 < pre_out.len() && (#[trigger] pre_out[q0]).kind
                                == input[p].kind;
                        assert(out@[q0].kind == input[p].kind);
                    } else {
                        assert(out@[n].kind == input[p].kind);
                    }
                }
            }
        } else {
            proof {
                assert(i > 0 && input[i as int].kind == input[i as int - 1].kind);
                assert forall|p: int| 0 <= p < i + 1 implies exists|q: int|
                    0 <= q < out@.len() && (#[trigger] out@[q]).kind == (
                    #[trigger] input[p]).kind by {
                    if p < i {
                        assert(exists|q: int|
                            0 <= q < out@.len() && (#[trigger] out@[q]).kind == input[p].kind);
                    } else {
                        let q0 = choose|q0: int|
                            0 <= q0 < out@.len() && (#[trigger] out@[q0]).kind
                                == input[i as int - 1].kind;
                        assert(out@[q0].kind == input[p].kind);
                    }
                }
            }
        }
        i = i + 1;
    }

    *dlls = out;
}

/// Deduplicates a scanned catalog: the current entry (if any) moves to
/// the end so that, among equal identities, a copy at another path is
/// the one kept; the catalog is then sorted by the build-kind order
/// and runs of structurally equal kinds collapse to their first entry.
/// Afterwards no two entries share an identity, every entry comes from
/// the scan, and every scanned identity is still represented.
#[verifier::loop_isolation(false)]
#[verifier::rlimit(40)]
pub fn sort_and_filter_duplicates(dlls: &mut Vec<OriDll>, current_idx: Option<usize>)
    requires
        current_idx matches Some(ci) ==> ci < old(dlls)@.len(),
    ensures
        forall|p: int, q: int|
            0 <= p < q < final(dlls)@.len() ==> kind_lt(
                (#[trigger] final(dlls)@[p]).kind,
                (#[trigger] final(dlls)@[q]).kind,
            ),
        forall|q: int|
            0 <= q < final(dlls)@.len() ==> old(dlls)@.contains(#[trigger] final(dlls)@[q]),
        forall|p: int|
            0 <= p < old(dlls)@.len() ==> exists|q: int|
                0 <= q < final(dlls)@.len() && (#[trigger] final(dlls)@[q]).kind == (
                #[trigger] old(dlls)@[p]).kind,
        (current_idx is Some && pairwise_distinct(old(dlls)@) && has_duplicate_kind(
            old(dlls)@,
            current_idx->Some_0 as int,
        )) ==> kind_represented_elsewhere(
            final(dlls)@,
            old(dlls)@[current_idx->Some_0 as int],
        ),
{
    let ghost input = dlls@;
    if let Some(current_idx) = current_idx {
        let last = dlls.len() - 1;
        let ghost pre = dlls@;
        let a = dlls[current_idx].clone();
        let b = dlls[last].clone();
        dlls[current_idx] = b;
        dlls[last] = a;
        proof {
            lemma_swap_preserves_contains(pre, dlls@, current_idx as int, last as int);
        }
    }

    let ghost pswap = dlls@;
    sort_by_kind(dlls);
    let ghost sorted = dlls@;
    dedup_sorted(dlls);

    proof {
        assert forall|p: int| #![trigger input[p]] 0 <= p < input.len() implies exists|q: int|
            0 <= q < dlls@.len() && (#[trigger] dlls@[q]).kind == input[p].kind by {
            assert(input.contains(input[p]));
            assert(sorted.contains(input[p]));
            let s = choose|s: int| 0 <= s < sorted.len() && sorted[s] == input[p];
            assert(exists|q: int| 0 <= q < dlls@.len() && (#[trigger] dlls@[q]).kind == sorted[s].kind);
        }
        if current_idx is Some && pairwise_distinct(input) && has_duplicate_kind(
            input,
            current_idx->Some_0 as int,
        ) {
            let ci = current_idx->Some_0 as int;
            let lastp = input.len() as int - 1;
            let cur = input[ci];
            assert(pswap == input.update(ci, input[lastp]).update(lastp, cur));
            lemma_swap_preserves_distinct(input, pswap, ci, lastp);
            lemma_swap_preserves_contains(input, pswap, ci, lastp);
            assert(pswap.last() == cur);
            assert(equal_kinds_precede(sorted, cur));

            let j = choose|j: int|
                0 <= j < input.len() && j != ci && (#[trigger] input[j]).kind == input[ci].kind;
            let other = input[j];
            assert(other != cur) by {
                if j < ci {
                    assert(input[j] != input[ci]);
                } else {
                    assert(input[ci] != input[j]);
                }
            }
            assert(input.contains(other));
            assert(sorted.contains(other));
            let qm = choose|qm: int| 0 <= qm < sorted.len() && sorted[qm] == other;

            assert(exists|q: int|
                0 <= q < dlls@.len() && (#[trigger] dlls@[q]).kind == sorted[qm].kind);
            let qr = choose|qr: int|
                0 <= qr < dlls@.len() && (#[trigger] dlls@[qr]).kind == sorted[qm].kind;
            let r = dlls@[qr];
            assert(r.kind == cur.kind);
            assert(first_of_kind(sorted, r));
            if r == cur {
                reveal(first_of_kind);
                let pr = choose|pr: int|
                    {
                        &&& 0 <= pr < sorted.len()
                        &&& #[trigger] sorted[pr] == r
                        &&& forall|p2: int| 0 <= p2 < pr ==> (#[trigger] sorted[p2]).kind != r.kind
                    };
                assert(sorted[qm].kind == cur.kind && sorted[qm] != cur);
                assert(qm < pr);
                assert(sorted[qm].kind != r.kind);
                assert(false);
            }
            assert(kind_represented_elsewhere(dlls@, cur));
        }
    }
}

/// The stem of a backup file name, derived from the outgoing build's
/// classification.
pub open spec fn spec_backup_stem(c: DllClassification) -> Seq<char> {
    match c {
        DllClassification::Vanilla => "Assembly-CSharp.vanilla"@,
        DllClassification::UnknownRando(_) => "Assembly-CSharp.rando"@,
        DllClassification::Rando(v) => "Assembly-CSharp.rando."@
            + crate::dll_classifier::spec_version_string(v),
        _ => "Assembly-CSharp.unknown"@,
    }
}

/// The deterministic backup path for an outgoing build.
pub open spec fn spec_backup_path(dir: Seq<char>, c: DllClassification) -> Seq<char> {
    dir + "/"@ + spec_backup_stem(c) + ".dll"@
}

/// The backup path with a disambiguating suffix, used when the
/// deterministic name is already taken.
pub open spec fn spec_backup_path_suffixed(
    dir: Seq<char>,
    c: DllClassification,
    sfx: Seq<char>,
) -> Seq<char> {
    dir + "/"@ + spec_backup_stem(c) + "."@ + sfx + ".dll"@
}

/// An ASCII letter or digit, the alphabet of the random backup-name
/// suffix.
pub open spec fn is_alnum(c: char) -> bool {
    ('a' <= c && c <= 'z') || ('A' <= c && c <= 'Z') || ('0' <= c && c <= '9')
}

/// Relies on rand's `Alphanumeric` distribution through
/// `SampleString::sample_string`: the result holds exactly the
/// requested number of sampled characters, each drawn from
/// `a-z A-Z 0-9`. Nothing more is assumed of which characters come
/// out.
#[verifier::external_body]
fn sample_alphanumeric_10() -> (r: String)
    ensures
        r@.len() == 10,
        forall|i: int| 0 <= i < r@.len() ==> is_alnum(#[trigger] r@[i]),
{
    rand::distr::SampleString::sample_string(&rand::distr::Alphanumeric, &mut rand::rng(), 10)
}

/// The backup stem for an outgoing build's classification.
fn backup_stem(dll: DllClassification) -> (r: String)
    ensures
        r@ == spec_backup_stem(dll),
{
    match dll {
        DllClassification::Vanilla => "Assembly-CSharp.vanilla".to_owned(),
        DllClassification::UnknownRando(_) => "Assembly-CSharp.rando".to_owned(),
        DllClassification::Rando(v) => {
            let mut s: String = "Assembly-CSharp.rando.".to_owned();
            let version = v.display_string();
            s.append(version.as_str());
            s
        },
        _ => "Assembly-CSharp.unknown".to_owned(),
    }
}

/// The name under which the outgoing build is preserved: the
/// deterministic, classification-derived path, or, when that exact
/// name is already taken on disk, the same name with a fresh random
/// ten-character suffix so that no prior backup is overwritten. The
/// caller reports with `name_taken` whether the deterministic name
/// exists.
pub fn unique_name_for_dll(target_dir: &str, dll: DllClassification, name_taken: bool) -> (r:
    String)
    ensures
        !name_taken ==> r@ == spec_backup_path(target_dir@, dll),
        name_taken ==> exists|sfx: Seq<char>|
            sfx.len() == 10 && r@ == spec_backup_path_suffixed(target_dir@, dll, sfx),
{
    let stem = backup_stem(dll);
    let mut path: String = target_dir.to_owned();
    path.append("/");
    path.append(stem.as_str());
    if name_taken {
        let suffix = sample_alphanumeric_10();
        path.append(".");
        path.append(suffix.as_str());
        path.append(".dll");
        proof {
            assert(path@ =~= spec_backup_path_suffixed(target_dir@, dll, suffix@));
        }
        path
    } else {
        path.append(".dll");
        proof {
            assert(path@ =~= spec_backup_path(target_dir@, dll));
        }
        path
    }
}

/// The canonical path of the active build inside the managed
/// directory.
pub fn install_target_path(game_dir: &GameDir) -> (r: String)
    ensures
        r@ == game_dir.managed@ + "/Assembly-CSharp.dll"@,
{
    let mut path = game_dir.managed.clone();
    path.append("/Assembly-CSharp.dll");
    path
}

/// Organizes the classified files of a directory scan: remembers the
/// entry at the canonical installed path (the first one, when several
/// were scanned) as the current build, then deduplicates and orders
/// the catalog. The current entry moves to the end before
/// deduplication, so a duplicate at another path survives as the
/// kind's representative.
#[verifier::rlimit(40)]
pub fn organize_scan_results(all_dlls: Vec<OriDll>, installed_path: &str) -> (r: (
    Option<OriDll>,
    Vec<OriDll>,
))
    ensures
        r.0 is None ==> forall|i: int|
            0 <= i < all_dlls@.len() ==> (#[trigger] all_dlls@[i]).path@ != installed_path@,
        r.0 matches Some(c) ==> exists|i: int|
            {
                &&& 0 <= i < all_dlls@.len()
                &&& c == all_dlls@[i]
                &&& c.path@ == installed_path@
                &&& forall|j: int|
                    0 <= j < i ==> (#[trigger] all_dlls@[j]).path@ != installed_path@
            },
        forall|p: int, q: int|
            0 <= p < q < r.1@.len() ==> kind_lt(
                (#[trigger] r.1@[p]).kind,
                (#[trigger] r.1@[q]).kind,
            ),
        forall|q: int| 0 <= q < r.1@.len() ==> all_dlls@.contains(#[trigger] r.1@[q]),
        forall|p: int|
            0 <= p < all_dlls@.len() ==> exists|q: int|
                0 <= q < r.1@.len() && (#[trigger] r.1@[q]).kind == (
                #[trigger] all_dlls@[p]).kind,
        (pairwise_distinct(all_dlls@) && r.0 is Some && (exists|j: int|
            0 <= j < all_dlls@.len() && (#[trigger] all_dlls@[j]).kind == r.0->Some_0.kind
                && all_dlls@[j] != r.0->Some_0)) ==> kind_represented_elsewhere(
            r.1@,
            r.0->Some_0,
        ),
{
    let ghost input = all_dlls@;
    let mut dlls = all_dlls;
    let mut current_idx: Option<usize> = None;
    let mut current: Option<OriDll> = None;
    let mut i: usize = 0;

    while i < dlls.len()
        invariant
            0 <= i <= input.len(),
            input == dlls@,
            current is None <==> current_idx is None,
            current_idx is None ==> forall|j: int|
                0 <= j < i ==> (#[trigger] input[j]).path@ != installed_path@,
            current_idx matches Some(ci) ==> {
                &&& ci < input.len()
                &&& current == Some(input[ci as int])
                &&& input[ci as int].path@ == installed_path@
                &&& forall|j: int| 0 <= j < ci ==> (#[trigger] input[j]).path@ != installed_path@
            },
        decreases input.len() - i,
    {
        if current_idx.is_none() && str_eq(dlls[i].path.as_str(), installed_path) {
            current_idx = Some(i);
            current = Some(dlls[i].clone());
        }
        i = i + 1;
    }

    sort_and_filter_duplicates(&mut dlls, current_idx);

    proof {
        if current_idx is Some && pairwise_distinct(input) {
            let ci = current_idx->Some_0 as int;
            let c = input[ci];
            if exists|j: int|
                0 <= j < input.len() && (#[trigger] input[j]).kind == c.kind && input[j] != c {
                let j = choose|j: int|
                    0 <= j < input.len() && (#[trigger] input[j]).kind == c.kind && input[j] != c;
                assert(j != ci);
                assert(has_duplicate_kind(input, ci));
            }
        }
    }

    (current, dlls)
}

/// The display label of an optional catalog entry, as shown in the
/// version selector.
pub open spec fn spec_format_dll(dll: Option<OriDll>) -> Seq<char> {
    match dll {
        None => "<None>"@,
        Some(d) => match d.kind {
            OriDllKind::Vanilla => "Vanilla"@,
            OriDllKind::Rando(v) => "Rando v"@ + crate::dll_classifier::spec_version_string(v),
            OriDllKind::UnknownRando(_) => "Rando ["@ + d.display_name@ + "]"@,
        },
    }
}

/// Formats an optional catalog entry for display.
pub fn format_dll(dll: &Option<OriDll>) -> (r: String)
    ensures
        r@ == spec_format_dll(*dll),
{
    match dll {
        None => "<None>".to_owned(),
        Some(d) => match &d.kind {
            OriDllKind::Vanilla => "Vanilla".to_owned(),
            OriDllKind::Rando(v) => {
                let mut s: String = "Rando v".to_owned();
                let version = v.display_string();
                s.append(version.as_str());
                s
            },
            OriDllKind::UnknownRando(_) => {
                let mut s: String = "Rando [".to_owned();
                s.append(d.display_name.as_str());
                s.append("]");
                proof {
                    assert(s@ =~= spec_format_dll(*dll));
                }
                s
            },
        },
    }
}

/// The display label of a catalog entry itself: its kind, with the
/// file name for builds that carry no version.
pub open spec fn spec_display_dll(d: OriDll) -> Seq<char> {
    match d.kind {
        OriDllKind::Vanilla => "Vanilla"@,
        OriDllKind::Rando(v) => "Rando ("@ + crate::dll_classifier::spec_version_string(v) + ")"@,
        OriDllKind::UnknownRando(_) => "Rando (unknown) ["@ + d.display_name@ + "]"@,
    }
}

impl OriDll {
    /// Formats the entry for display.
    pub fn display_string(&self) -> (r: String)
        ensures
            r@ == spec_display_dll(*self),
    {
        match &self.kind {
            OriDllKind::Vanilla => "Vanilla".to_owned(),
            OriDllKind::Rando(v) => {
                let mut s: String = "Rando (".to_owned();
                let version = v.display_string();
                s.append(version.as_str());
                s.append(")");
                proof {
                    assert(s@ =~= spec_display_dll(*self));
                }
                s
            },
            OriDllKind::UnknownRando(_) => {
                let mut s: String = "Rando (unknown) [".to_owned();
                s.append(self.display_name.as_str());
                s.append("]");
                proof {
                    assert(s@ =~= spec_display_dll(*self));
                }
                s
            },
        }
    }
}

/// Whether selecting `new` switches away from `current`: true exactly
/// when `new` is a build of another kind, or a build where none was
/// selected.
pub fn different_version(new: &Option<OriDll>, current: &Option<OriDll>) -> (r: bool)
    ensures
        r == match (*new, *current) {
            (Some(a), Some(b)) => a.kind != b.kind,
            (Some(_), None) => true,
            _ => false,
        },
{
    match (new, current) {
        (Some(a), Some(b)) => a.kind != b.kind,
        (Some(_), None) => true,
        _ => false,
    }
}

} // verus!
