//! Normalization of the markers along the book hierarchy: self-validation,
//! inheritance from container to children, alias expansion and pruning.

use vstd::prelude::*;

use crate::error::{result_view, ErrorV, SitemapError};
use crate::sitemap::{
    chapters_view, pairs_view, parts_view, subtargets_view, Book, BookV, Chapter, ChapterV, Markers, MarkersV, Part, PartV,
    Subtarget, SubtargetV,
};

verus! {

/// Some subtarget of `s` is named `n`.
pub open spec fn has_name(s: Seq<SubtargetV>, n: Seq<char>) -> bool {
    exists|i: int| 0 <= i < s.len() && (#[trigger] s[i]).name == n
}

/// The markers name `n` among their included or excluded subtargets.
pub open spec fn defines(m: MarkersV, n: Seq<char>) -> bool {
    has_name(m.includes, n) || has_name(m.exclude, n)
}

/// The index of the first subtarget of `s` named `n`, if any.
pub open spec fn first_named(s: Seq<SubtargetV>, n: Seq<char>) -> Option<int> {
    if has_name(s, n) {
        Some(
            choose|i: int|
                0 <= i < s.len() && s[i].name == n && forall|j: int|
                    0 <= j < i ==> (#[trigger] s[j]).name != n,
        )
    } else {
        None
    }
}

/// The subtarget at index `i` of the included ones is also excluded.
pub open spec fn conflict_at(m: MarkersV, i: int) -> bool {
    has_name(m.exclude, m.includes[i].name)
}

/// The index of the first included subtarget that is also excluded, if any.
pub open spec fn first_conflict(m: MarkersV) -> Option<int> {
    if exists|i: int| 0 <= i < m.includes.len() && conflict_at(m, i) {
        Some(
            choose|i: int|
                0 <= i < m.includes.len() && conflict_at(m, i) && forall|j: int|
                    0 <= j < i ==> !#[trigger] conflict_at(m, j),
        )
    } else {
        None
    }
}

/// What is wrong with the alias entry at index `k` of `m`, if anything: its
/// name is itself defined or already taken by an earlier entry, or its target
/// is not defined.
pub open spec fn alias_fault(m: MarkersV, k: int) -> Option<ErrorV> {
    let entry = m.alias[k];
    if defines(m, entry.0) || has_key(m.alias.take(k), entry.0) {
        Some(ErrorV::AliasCollision { alias: entry.0 })
    } else if !defines(m, entry.1) {
        Some(ErrorV::DanglingAlias { alias: entry.0, target: entry.1 })
    } else {
        None
    }
}

/// The index of the first faulty alias entry, if any.
pub open spec fn first_alias_fault(m: MarkersV) -> Option<int> {
    if exists|k: int| 0 <= k < m.alias.len() && alias_fault(m, k) is Some {
        Some(
            choose|k: int|
                0 <= k < m.alias.len() && alias_fault(m, k) is Some && forall|j: int|
                    0 <= j < k ==> (#[trigger] alias_fault(m, j)) is None,
        )
    } else {
        None
    }
}

/// The failure of self-validation: the first subtarget that is included and
/// excluded, else the first faulty alias entry.
pub open spec fn validation_error(m: MarkersV) -> Option<ErrorV> {
    match first_conflict(m) {
        Some(i) => Some(ErrorV::Conflict { name: m.includes[i].name }),
        None => match first_alias_fault(m) {
            Some(k) => alias_fault(m, k),
            None => None,
        },
    }
}

/// The invariants of one markers bundle: no name is both included and excluded;
/// every alias names a defined target and is not itself defined; no two alias
/// entries have the same name.
pub open spec fn consistent(m: MarkersV) -> bool {
    &&& forall|i: int| 0 <= i < m.includes.len() ==> !has_name(m.exclude, #[trigger] m.includes[i].name)
    &&& forall|k: int|
        0 <= k < m.alias.len() ==> !defines(m, (#[trigger] m.alias[k]).0) && defines(m, m.alias[k].1)
    &&& forall|j: int, k: int|
        0 <= j < k < m.alias.len() ==> (#[trigger] m.alias[j]).0 != (#[trigger] m.alias[k]).0
}

/// Some subtarget of `s` carries parameters.
pub open spec fn has_parameters(s: Seq<SubtargetV>) -> bool {
    exists|i: int| 0 <= i < s.len() && (#[trigger] s[i]).parameters.len() > 0
}

/// The failure of markers above the chapter level that carry parameters.
pub open spec fn parameters_error(m: MarkersV) -> Option<ErrorV> {
    if has_parameters(m.includes) {
        Some(ErrorV::IncludeParameters {  })
    } else if has_parameters(m.exclude) {
        Some(ErrorV::ExcludeParameters {  })
    } else {
        None
    }
}

/// The failure of the markers of a book or a part.
pub open spec fn container_error(m: MarkersV) -> Option<ErrorV> {
    match validation_error(m) {
        Some(e) => Some(e),
        None => parameters_error(m),
    }
}

/// What an operation that returns nothing reports.
pub open spec fn outcome(r: Result<(), SitemapError>) -> Option<ErrorV> {
    match r {
        Ok(_) => None,
        Err(e) => Some(e@),
    }
}

/// Finds the first subtarget of `s` named `name`.
pub fn find_named(s: &Vec<Subtarget>, name: &String) -> (r: Option<usize>)
    ensures
        match r {
            Some(i) => i < s.len() && first_named(subtargets_view(s@), name@) == Some(i as int),
            None => first_named(subtargets_view(s@), name@) is None,
        },
{
    let ghost v = subtargets_view(s@);
    let mut i: usize = 0;
    while i < s.len()
        invariant
            i <= s.len(),
            v == subtargets_view(s@),
            forall|j: int| 0 <= j < i ==> (#[trigger] v[j]).name != name@,
        decreases s.len() - i,
    {
        if s[i].name == *name {
            assert(v[i as int].name == name@);
            assert(has_name(v, name@));
            let ghost c = first_named(v, name@)->0;
            assert(0 <= c < v.len() && v[c].name == name@ && forall|j: int|
                0 <= j < c ==> (#[trigger] v[j]).name != name@);
            assert(c == i) by {
                if c < i {
                    assert(v[c].name != name@);
                }
                if i < c {
                    assert(v[i as int].name != name@);
                }
            }
            return Some(i);
        }
        i = i + 1;
    }
    assert(!has_name(v, name@));
    None
}

/// The child markers name `subtarget` among their own included or excluded ones.
pub fn child_overrides(child_markers: &Markers, subtarget: &Subtarget) -> (r: bool)
    ensures
        r == defines(child_markers@, subtarget@.name),
{
    defines_name(child_markers, &subtarget.name)
}

/// The markers name `name` among their included or excluded subtargets.
pub fn defines_name(markers: &Markers, name: &String) -> (r: bool)
    ensures
        r == defines(markers@, name@),
{
    let a = find_named(&markers.includes.subtargets, name);
    let b = find_named(&markers.exclude.subtargets, name);
    a.is_some() || b.is_some()
}

/// Rejects parameters on the included or excluded subtargets of a book or a part.
pub fn deny_parameters(markers: &Markers) -> (r: Result<(), SitemapError>)
    ensures
        outcome(r) == parameters_error(markers@),
{
    let ghost v = markers@;
    let mut i: usize = 0;
    while i < markers.includes.subtargets.len()
        invariant
            i <= markers.includes.subtargets.len(),
            v == markers@,
            forall|j: int| 0 <= j < i ==> (#[trigger] v.includes[j]).parameters.len() == 0,
        decreases markers.includes.subtargets.len() - i,
    {
        if !markers.includes.subtargets[i].parameters.is_empty() {
            assert(v.includes[i as int].parameters.len() > 0);
            return Err(SitemapError::IncludeParameters {  });
        }
        i = i + 1;
    }
    let mut k: usize = 0;
    while k < markers.exclude.subtargets.len()
        invariant
            k <= markers.exclude.subtargets.len(),
            v == markers@,
            !has_parameters(v.includes),
            forall|j: int| 0 <= j < k ==> (#[trigger] v.exclude[j]).parameters.len() == 0,
        decreases markers.exclude.subtargets.len() - k,
    {
        if !markers.exclude.subtargets[k].parameters.is_empty() {
            assert(v.exclude[k as int].parameters.len() > 0);
            return Err(SitemapError::ExcludeParameters {  });
        }
        k = k + 1;
    }
    Ok(())
}

/// Some alias entry of `a` has the name `k`.
pub open spec fn has_key(a: Seq<(Seq<char>, Seq<char>)>, k: Seq<char>) -> bool {
    exists|i: int| 0 <= i < a.len() && (#[trigger] a[i]).0 == k
}

/// `own` after taking over the subtargets of `incoming` one after the other,
/// each unless a subtarget of its name already stands in `own` or in `other`.
pub open spec fn inherit(
    own: Seq<SubtargetV>,
    other: Seq<SubtargetV>,
    incoming: Seq<SubtargetV>,
) -> Seq<SubtargetV>
    decreases incoming.len(),
{
    if incoming.len() == 0 {
        own
    } else {
        let prev = inherit(own, other, incoming.drop_last());
        let s = incoming.last();
        if has_name(prev, s.name) || has_name(other, s.name) {
            prev
        } else {
            prev.push(s)
        }
    }
}

/// `own` after taking over the alias entries of `incoming` one after the other,
/// each unless an entry of its name already stands in `own`.
pub open spec fn inherit_aliases(
    own: Seq<(Seq<char>, Seq<char>)>,
    incoming: Seq<(Seq<char>, Seq<char>)>,
) -> Seq<(Seq<char>, Seq<char>)>
    decreases incoming.len(),
{
    if incoming.len() == 0 {
        own
    } else {
        let prev = inherit_aliases(own, incoming.drop_last());
        let e = incoming.last();
        if has_key(prev, e.0) {
            prev
        } else {
            prev.push(e)
        }
    }
}

/// The markers of a child after inheriting those of its container: first the
/// included subtargets, then the excluded ones, then the aliases. The child's
/// own definitions take precedence.
pub open spec fn propagated(parent: MarkersV, child: MarkersV) -> MarkersV {
    let includes = inherit(child.includes, child.exclude, parent.includes);
    MarkersV {
        includes,
        exclude: inherit(child.exclude, includes, parent.exclude),
        alias: inherit_aliases(child.alias, parent.alias),
        ..child
    }
}

/// Finds the first alias entry of `mapping` named `key`.
pub fn has_alias(mapping: &Vec<(String, String)>, key: &String) -> (r: bool)
    ensures
        r == has_key(pairs_view(mapping@), key@),
{
    let ghost v = pairs_view(mapping@);
    let mut i: usize = 0;
    while i < mapping.len()
        invariant
            i <= mapping.len(),
            v == pairs_view(mapping@),
            forall|j: int| 0 <= j < i ==> (#[trigger] v[j]).0 != key@,
        decreases mapping.len() - i,
    {
        if mapping[i].0 == *key {
            assert(v[i as int].0 == key@);
            return true;
        }
        i = i + 1;
    }
    false
}

/// Whether the alias entry at index `k` of `mapping` repeats the name of an
/// earlier entry.
pub fn key_repeats(mapping: &Vec<(String, String)>, k: usize) -> (r: bool)
    requires
        k < mapping.len(),
    ensures
        r == has_key(pairs_view(mapping@).take(k as int), pairs_view(mapping@)[k as int].0),
{
    let ghost v = pairs_view(mapping@);
    let ghost pre = v.take(k as int);
    let mut j: usize = 0;
    while j < k
        invariant
            j <= k < mapping.len(),
            v == pairs_view(mapping@),
            pre == v.take(k as int),
            forall|i: int| 0 <= i < j ==> (#[trigger] pre[i]).0 != v[k as int].0,
        decreases k - j,
    {
        if mapping[j].0 == mapping[k].0 {
            assert(pre[j as int].0 == v[k as int].0);
            return true;
        }
        j = j + 1;
    }
    false
}

/// Propagates the markers of a container to the markers of one of its children:
/// every included or excluded subtarget of the container is added to the child
/// unless the child already names it, and every alias of the container is added
/// unless the child already has an alias of that name.
pub fn propagate(parent: &Markers, child: &mut Markers)
    ensures
        final(child)@ == propagated(parent@, old(child)@),
{
    let ghost c0 = child@;
    let ghost p = parent@;
    let mut i: usize = 0;
    while i < parent.includes.subtargets.len()
        invariant
            i <= parent.includes.subtargets.len(),
            p == parent@,
            child@ == (MarkersV {
                includes: inherit(c0.includes, c0.exclude, p.includes.subrange(0, i as int)),
                ..c0
            }),
        decreases parent.includes.subtargets.len() - i,
    {
        assert(p.includes.subrange(0, i + 1).drop_last() =~= p.includes.subrange(0, i as int));
        if !child_overrides(child, &parent.includes.subtargets[i]) {
            let s = parent.includes.subtargets[i].copy();
            child.includes.subtargets.push(s);
            assert(child@.includes =~= inherit(
                c0.includes,
                c0.exclude,
                p.includes.subrange(0, i + 1),
            ));
        }
        i = i + 1;
    }
    assert(p.includes.subrange(0, i as int) =~= p.includes);
    let ghost c1 = child@;
    let mut k: usize = 0;
    while k < parent.exclude.subtargets.len()
        invariant
            k <= parent.exclude.subtargets.len(),
            p == parent@,
            child@ == (MarkersV {
                exclude: inherit(c1.exclude, c1.includes, p.exclude.subrange(0, k as int)),
                ..c1
            }),
        decreases parent.exclude.subtargets.len() - k,
    {
        assert(p.exclude.subrange(0, k + 1).drop_last() =~= p.exclude.subrange(0, k as int));
        if !child_overrides(child, &parent.exclude.subtargets[k]) {
            let s = parent.exclude.subtargets[k].copy();
            child.exclude.subtargets.push(s);
            assert(child@.exclude =~= inherit(
                c1.exclude,
                c1.includes,
                p.exclude.subrange(0, k + 1),
            ));
        }
        k = k + 1;
    }
    assert(p.exclude.subrange(0, k as int) =~= p.exclude);
    let ghost c2 = child@;
    let mut n: usize = 0;
    while n < parent.alias.mapping.len()
        invariant
            n <= parent.alias.mapping.len(),
            p == parent@,
            child@ == (MarkersV {
                alias: inherit_aliases(c2.alias, p.alias.subrange(0, n as int)),
                ..c2
            }),
        decreases parent.alias.mapping.len() - n,
    {
        assert(p.alias.subrange(0, n + 1).drop_last() =~= p.alias.subrange(0, n as int));
        let entry = &parent.alias.mapping[n];
        if !has_alias(&child.alias.mapping, &entry.0) {
            let e = (entry.0.clone(), entry.1.clone());
            child.alias.mapping.push(e);
            assert(child@.alias =~= inherit_aliases(c2.alias, p.alias.subrange(0, n + 1)));
        }
        n = n + 1;
    }
    assert(p.alias.subrange(0, n as int) =~= p.alias);
}

/// `s` after expanding the aliases one after the other: where the target of an
/// alias names a subtarget of `s` (the first such), a copy of it under the alias
/// name is appended.
pub open spec fn expanded(s: Seq<SubtargetV>, aliases: Seq<(Seq<char>, Seq<char>)>) -> Seq<
    SubtargetV,
>
    decreases aliases.len(),
{
    if aliases.len() == 0 {
        s
    } else {
        let prev = expanded(s, aliases.drop_last());
        let e = aliases.last();
        match first_named(prev, e.1) {
            Some(i) => prev.push(SubtargetV { name: e.0, parameters: prev[i].parameters }),
            None => prev,
        }
    }
}

/// The markers with their aliases expanded in the included and in the excluded subtargets.
pub open spec fn expanded_markers(m: MarkersV) -> MarkersV {
    MarkersV {
        includes: expanded(m.includes, m.alias),
        exclude: expanded(m.exclude, m.alias),
        ..m
    }
}

/// Expands the aliases of the markers: for each alias, in order, whose target is
/// included (or excluded), the target's entry is copied under the alias name.
pub fn expand_aliases(markers: &mut Markers)
    ensures
        final(markers)@ == expanded_markers(old(markers)@),
{
    let ghost m0 = markers@;
    let mut k: usize = 0;
    while k < markers.alias.mapping.len()
        invariant
            k <= markers.alias.mapping.len(),
            markers@ == (MarkersV {
                includes: expanded(m0.includes, m0.alias.subrange(0, k as int)),
                exclude: expanded(m0.exclude, m0.alias.subrange(0, k as int)),
                ..m0
            }),
        decreases markers.alias.mapping.len() - k,
    {
        assert(m0.alias.subrange(0, k + 1).drop_last() =~= m0.alias.subrange(0, k as int));
        let alias = markers.alias.mapping[k].0.clone();
        let target = markers.alias.mapping[k].1.clone();
        assert(m0.alias.subrange(0, k + 1).last() == (alias@, target@));
        let ghost prev = markers@.includes;
        match find_named(&markers.includes.subtargets, &target) {
            Some(i) => {
                let s = markers.includes.subtargets[i].renamed(&alias);
                assert(s@ == (SubtargetV { name: alias@, parameters: prev[i as int].parameters }));
                markers.includes.subtargets.push(s);
                assert(markers@.includes =~= prev.push(s@));
            },
            None => {},
        }
        assert(markers@.includes =~= expanded(m0.includes, m0.alias.subrange(0, k + 1)));
        let ghost prev = markers@.exclude;
        match find_named(&markers.exclude.subtargets, &target) {
            Some(i) => {
                let s = markers.exclude.subtargets[i].renamed(&alias);
                assert(s@ == (SubtargetV { name: alias@, parameters: prev[i as int].parameters }));
                markers.exclude.subtargets.push(s);
                assert(markers@.exclude =~= prev.push(s@));
            },
            None => {},
        }
        assert(markers@.exclude =~= expanded(m0.exclude, m0.alias.subrange(0, k + 1)));
        k = k + 1;
    }
    assert(m0.alias.subrange(0, k as int) =~= m0.alias);
}

/// A normalized chapter: its markers validated, then their aliases expanded.
#[verifier::opaque]
pub open spec fn chapter_normalized(c: ChapterV) -> Result<ChapterV, ErrorV> {
    match validation_error(c.markers) {
        Some(e) => Err(e),
        None => Ok(ChapterV { markers: expanded_markers(c.markers), ..c }),
    }
}

/// A chapter under a container with markers `m`, after propagation.
pub open spec fn chapter_inheriting(m: MarkersV, c: ChapterV) -> ChapterV {
    ChapterV { markers: propagated(m, c.markers), ..c }
}

/// The chapters under a container with markers `m`, each propagated to and
/// normalized in order; the first failure ends it.
#[verifier::opaque]
pub open spec fn chapters_normalized(m: MarkersV, cs: Seq<ChapterV>) -> Result<
    Seq<ChapterV>,
    ErrorV,
>
    decreases cs.len(),
{
    if cs.len() == 0 {
        Ok(Seq::empty())
    } else {
        match chapters_normalized(m, cs.drop_last()) {
            Err(e) => Err(e),
            Ok(prev) => match chapter_normalized(chapter_inheriting(m, cs.last())) {
                Err(e) => Err(e),
                Ok(c) => Ok(prev.push(c)),
            },
        }
    }
}

/// A normalized part: its markers validated and free of parameters, then its
/// chapters propagated to and normalized.
#[verifier::opaque]
pub open spec fn part_normalized(p: PartV) -> Result<PartV, ErrorV> {
    match container_error(p.markers) {
        Some(e) => Err(e),
        None => match chapters_normalized(p.markers, p.chapters) {
            Err(e) => Err(e),
            Ok(cs) => Ok(PartV { chapters: cs, ..p }),
        },
    }
}

/// A part under a book with markers `m`, after propagation.
pub open spec fn part_inheriting(m: MarkersV, p: PartV) -> PartV {
    PartV { markers: propagated(m, p.markers), ..p }
}

/// The parts under a book with markers `m`, each propagated to and normalized
/// in order; the first failure ends it.
#[verifier::opaque]
pub open spec fn parts_normalized(m: MarkersV, ps: Seq<PartV>) -> Result<Seq<PartV>, ErrorV>
    decreases ps.len(),
{
    if ps.len() == 0 {
        Ok(Seq::empty())
    } else {
        match parts_normalized(m, ps.drop_last()) {
            Err(e) => Err(e),
            Ok(prev) => match part_normalized(part_inheriting(m, ps.last())) {
                Err(e) => Err(e),
                Ok(p) => Ok(prev.push(p)),
            },
        }
    }
}

/// The parts that hold at least one chapter, in their order.
pub open spec fn pruned(ps: Seq<PartV>) -> Seq<PartV> {
    ps.filter(|p: PartV| p.chapters.len() > 0)
}

/// A normalized book: its markers validated and free of parameters, its parts
/// propagated to and normalized, then the parts without chapters removed.
pub open spec fn book_normalized(b: BookV) -> Result<BookV, ErrorV> {
    match container_error(b.markers) {
        Some(e) => Err(e),
        None => match parts_normalized(b.markers, b.parts) {
            Err(e) => Err(e),
            Ok(ps) => Ok(BookV { parts: pruned(ps), ..b }),
        },
    }
}

/// Pruning a non-empty sequence of parts: the last part is kept exactly when
/// it holds chapters.
pub proof fn lemma_pruned_step(ps: Seq<PartV>)
    requires
        ps.len() > 0,
    ensures
        pruned(ps) == (if ps.last().chapters.len() > 0 {
            pruned(ps.drop_last()).push(ps.last())
        } else {
            pruned(ps.drop_last())
        }),
{
    reveal(Seq::filter);
}

proof fn lemma_chapters_step(m: MarkersV, cs: Seq<ChapterV>, d: int)
    requires
        0 <= d < cs.len(),
        chapters_normalized(m, cs.subrange(0, d)) is Ok,
    ensures
        chapters_normalized(m, cs.subrange(0, d + 1)) == (match chapter_normalized(
            chapter_inheriting(m, cs[d]),
        ) {
            Err(e) => Err(e),
            Ok(c) => Ok(chapters_normalized(m, cs.subrange(0, d))->Ok_0.push(c)),
        }),
{
    reveal(chapters_normalized);
    assert(cs.subrange(0, d + 1).drop_last() =~= cs.subrange(0, d));
}

proof fn lemma_parts_step(m: MarkersV, ps: Seq<PartV>, d: int)
    requires
        0 <= d < ps.len(),
        parts_normalized(m, ps.subrange(0, d)) is Ok,
    ensures
        parts_normalized(m, ps.subrange(0, d + 1)) == (match part_normalized(
            part_inheriting(m, ps[d]),
        ) {
            Err(e) => Err(e),
            Ok(p) => Ok(parts_normalized(m, ps.subrange(0, d))->Ok_0.push(p)),
        }),
{
    reveal(parts_normalized);
    assert(ps.subrange(0, d + 1).drop_last() =~= ps.subrange(0, d));
}

proof fn lemma_chapters_failure(m: MarkersV, cs: Seq<ChapterV>, i: int, e: ErrorV)
    requires
        0 <= i <= cs.len(),
        chapters_normalized(m, cs.subrange(0, i)) == Err::<Seq<ChapterV>, ErrorV>(e),
    ensures
        chapters_normalized(m, cs) == Err::<Seq<ChapterV>, ErrorV>(e),
    decreases cs.len() - i,
{
    reveal(chapters_normalized);
    if i < cs.len() {
        assert(cs.subrange(0, i + 1).drop_last() =~= cs.subrange(0, i));
        lemma_chapters_failure(m, cs, i + 1, e);
    } else {
        assert(cs.subrange(0, i) =~= cs);
    }
}

proof fn lemma_parts_failure(m: MarkersV, ps: Seq<PartV>, i: int, e: ErrorV)
    requires
        0 <= i <= ps.len(),
        parts_normalized(m, ps.subrange(0, i)) == Err::<Seq<PartV>, ErrorV>(e),
    ensures
        parts_normalized(m, ps) == Err::<Seq<PartV>, ErrorV>(e),
    decreases ps.len() - i,
{
    reveal(parts_normalized);
    if i < ps.len() {
        assert(ps.subrange(0, i + 1).drop_last() =~= ps.subrange(0, i));
        lemma_parts_failure(m, ps, i + 1, e);
    } else {
        assert(ps.subrange(0, i) =~= ps);
    }
}

/// Normalization of one level of the book hierarchy and everything below it.
pub trait Normalize: Sized + View {
    /// The normalized value, or the failure that normalization reports.
    spec fn normalized(&self) -> Result<Self::V, ErrorV>;

    /// What is left of the value when normalization fails.
    spec fn after_failure(&self) -> Self::V;

    /// Validates the markers, propagates them down and expands aliases.
    /// Either the whole value is normalized or the failure is returned.
    fn normalize(&mut self) -> (r: Result<(), SitemapError>)
        ensures
            match old(self).normalized() {
                Ok(v) => r is Ok && final(self)@ == v,
                Err(e) => outcome(r) == Some(e) && final(self)@ == old(self).after_failure(),
            },
    ;
}

impl Normalize for Markers {
    /// Self-validation: the markers stay as they are.
    open spec fn normalized(&self) -> Result<MarkersV, ErrorV> {
        match validation_error(self@) {
            Some(e) => Err(e),
            None => Ok(self@),
        }
    }

    /// Self-validation only inspects the markers.
    open spec fn after_failure(&self) -> MarkersV {
        self@
    }

    fn normalize(&mut self) -> (r: Result<(), SitemapError>) {
        let ghost v = self@;
        let mut i: usize = 0;
        while i < self.includes.subtargets.len()
            invariant
                i <= self.includes.subtargets.len(),
                v == self@,
                forall|j: int| 0 <= j < i ==> !#[trigger] conflict_at(v, j),
            decreases self.includes.subtargets.len() - i,
        {
            if find_named(&self.exclude.subtargets, &self.includes.subtargets[i].name).is_some() {
                assert(conflict_at(v, i as int));
                let ghost c = first_conflict(v)->0;
                assert(0 <= c < v.includes.len() && conflict_at(v, c) && forall|j: int|
                    0 <= j < c ==> !#[trigger] conflict_at(v, j));
                assert(c == i) by {
                    if c < i {
                        assert(!conflict_at(v, c));
                    }
                    if i < c {
                        assert(!conflict_at(v, i as int));
                    }
                }
                return Err(SitemapError::Conflict { name: self.includes.subtargets[i].name.clone() });
            }
            i = i + 1;
        }
        assert(first_conflict(v) is None);
        let mut k: usize = 0;
        while k < self.alias.mapping.len()
            invariant
                k <= self.alias.mapping.len(),
                v == self@,
                first_conflict(v) is None,
                forall|j: int| 0 <= j < k ==> (#[trigger] alias_fault(v, j)) is None,
            decreases self.alias.mapping.len() - k,
        {
            let entry = &self.alias.mapping[k];
            let ghost ev = v.alias[k as int];
            assert(ev == (entry.0@, entry.1@));
            let collides = defines_name(self, &entry.0) || key_repeats(&self.alias.mapping, k);
            let known = defines_name(self, &entry.1);
            if collides || !known {
                assert(alias_fault(v, k as int) is Some);
                let ghost c = first_alias_fault(v)->0;
                assert(0 <= c < v.alias.len() && alias_fault(v, c) is Some && forall|j: int|
                    0 <= j < c ==> (#[trigger] alias_fault(v, j)) is None);
                assert(c == k) by {
                    if c < k {
                        assert(alias_fault(v, c) is None);
                    }
                    if k < c {
                        assert(alias_fault(v, k as int) is None);
                    }
                }
                if collides {
                    return Err(SitemapError::AliasCollision { alias: entry.0.clone() });
                } else {
                    return Err(
                        SitemapError::DanglingAlias {
                            alias: entry.0.clone(),
                            target: entry.1.clone(),
                        },
                    );
                }
            }
            k = k + 1;
        }
        assert(first_alias_fault(v) is None);
        Ok(())
    }
}

impl Normalize for Chapter {
    open spec fn normalized(&self) -> Result<ChapterV, ErrorV> {
        chapter_normalized(self@)
    }

    /// A chapter fails before anything is changed.
    open spec fn after_failure(&self) -> ChapterV {
        self@
    }

    fn normalize(&mut self) -> (r: Result<(), SitemapError>) {
        proof {
            reveal(chapter_normalized);
        }
        match self.markers.normalize() {
            Err(e) => {
                return Err(e);
            },
            Ok(()) => {},
        }
        expand_aliases(&mut self.markers);
        Ok(())
    }
}

/// Propagates the markers of a part to one of its chapters and normalizes it.
fn normalize_chapter_under(markers: &Markers, chapter: Chapter) -> (r: Result<Chapter, SitemapError>)
    ensures
        result_view(r) == chapter_normalized(chapter_inheriting(markers@, chapter@)),
{
    let mut c = chapter;
    propagate(markers, &mut c.markers);
    match c.normalize() {
        Err(e) => Err(e),
        Ok(()) => Ok(c),
    }
}

/// Propagates the markers of a book to one of its parts and normalizes it.
fn normalize_part_under(markers: &Markers, part: Part) -> (r: Result<Part, SitemapError>)
    ensures
        result_view(r) == part_normalized(part_inheriting(markers@, part@)),
{
    let mut p = part;
    propagate(markers, &mut p.markers);
    match p.normalize() {
        Err(e) => Err(e),
        Ok(()) => Ok(p),
    }
}

/// Propagates the markers of a part to each of its chapters and normalizes them
/// in order; the first failure ends it.
pub fn normalize_chapters(markers: &Markers, chapters: Vec<Chapter>) -> (r: Result<
    Vec<Chapter>,
    SitemapError,
>)
    ensures
        match r {
            Ok(v) => chapters_normalized(markers@, chapters_view(chapters@)) == Ok::<Seq<ChapterV>, ErrorV>(
                chapters_view(v@),
            ),
            Err(e) => chapters_normalized(markers@, chapters_view(chapters@)) == Err::<Seq<ChapterV>, ErrorV>(
                e@,
            ),
        },
{
    let ghost orig = chapters@;
    let ghost all = chapters_view(orig);
    let mut rest = chapters;
    let mut done: Vec<Chapter> = Vec::new();
    assert(all.subrange(0, 0) =~= Seq::<ChapterV>::empty());
    assert(chapters_view(done@) =~= Seq::<ChapterV>::empty());
    proof {
        reveal(chapters_normalized);
    }
    assert(all.subrange(0, all.len() as int) =~= all);
    while rest.len() > 0
        invariant
            done.len() + rest.len() == all.len(),
            rest@ == orig.subrange(done.len() as int, orig.len() as int),
            all == chapters_view(orig),
            orig == chapters@,
            chapters_normalized(markers@, all.subrange(0, done.len() as int)) == Ok::<
                Seq<ChapterV>,
                ErrorV,
            >(chapters_view(done@)),
        decreases rest.len(),
    {
        let ghost d = done.len() as int;
        let item = rest.remove(0);
        assert(item@ == all[d]);
        assert(rest@ =~= orig.subrange(d + 1, orig.len() as int));
        proof {
            lemma_chapters_step(markers@, all, d);
        }
        let c = match normalize_chapter_under(markers, item) {
            Err(e) => {
                proof {
                    lemma_chapters_failure(markers@, all, d + 1, e@);
                    assert(chapters_normalized(markers@, all) == Err::<Seq<ChapterV>, ErrorV>(e@));
                }
                return Err(e);
            },
            Ok(c) => c,
        };
        let ghost before = chapters_view(done@);
        done.push(c);
        assert(chapters_view(done@) =~= before.push(c@));
    }
    assert(all.subrange(0, done.len() as int) =~= all);
    Ok(done)
}

/// Propagates the markers of a book to each of its parts and normalizes them
/// in order; the first failure ends it.
pub fn normalize_parts(markers: &Markers, parts: Vec<Part>) -> (r: Result<
    Vec<Part>,
    SitemapError,
>)
    ensures
        match r {
            Ok(v) => parts_normalized(markers@, parts_view(parts@)) == Ok::<Seq<PartV>, ErrorV>(
                parts_view(v@),
            ),
            Err(e) => parts_normalized(markers@, parts_view(parts@)) == Err::<Seq<PartV>, ErrorV>(
                e@,
            ),
        },
{
    let ghost orig = parts@;
    let ghost all = parts_view(orig);
    let mut rest = parts;
    let mut done: Vec<Part> = Vec::new();
    assert(all.subrange(0, 0) =~= Seq::<PartV>::empty());
    assert(parts_view(done@) =~= Seq::<PartV>::empty());
    proof {
        reveal(parts_normalized);
    }
    assert(all.subrange(0, all.len() as int) =~= all);
    while rest.len() > 0
        invariant
            done.len() + rest.len() == all.len(),
            rest@ == orig.subrange(done.len() as int, orig.len() as int),
            all == parts_view(orig),
            orig == parts@,
            parts_normalized(markers@, all.subrange(0, done.len() as int)) == Ok::<
                Seq<PartV>,
                ErrorV,
            >(parts_view(done@)),
        decreases rest.len(),
    {
        let ghost d = done.len() as int;
        let item = rest.remove(0);
        assert(item@ == all[d]);
        assert(rest@ =~= orig.subrange(d + 1, orig.len() as int));
        proof {
            lemma_parts_step(markers@, all, d);
        }
        let p = match normalize_part_under(markers, item) {
            Err(e) => {
                proof {
                    lemma_parts_failure(markers@, all, d + 1, e@);
                    assert(parts_normalized(markers@, all) == Err::<Seq<PartV>, ErrorV>(e@));
                }
                return Err(e);
            },
            Ok(p) => p,
        };
        let ghost before = parts_view(done@);
        done.push(p);
        assert(parts_view(done@) =~= before.push(p@));
    }
    assert(all.subrange(0, done.len() as int) =~= all);
    Ok(done)
}

/// Removes the parts without chapters, keeping the order of the others.
pub fn prune(parts: Vec<Part>) -> (r: Vec<Part>)
    ensures
        parts_view(r@) == pruned(parts_view(parts@)),
{
    let ghost orig = parts@;
    let ghost all = parts_view(orig);
    let mut rest = parts;
    let n: usize = rest.len();
    let mut kept: Vec<Part> = Vec::new();
    let mut i: usize = 0;
    assert(all.subrange(0, 0) =~= Seq::<PartV>::empty());
    assert(parts_view(kept@) =~= Seq::<PartV>::empty());
    assert(all.subrange(0, all.len() as int) =~= all);
    while rest.len() > 0
        invariant
            i + rest.len() == n,
            n == all.len(),
            all == parts_view(orig),
            rest@ == orig.subrange(i as int, orig.len() as int),
            parts_view(kept@) == pruned(all.subrange(0, i as int)),
        decreases rest.len(),
    {
        let ghost k0 = parts_view(kept@);
        let p = rest.remove(0);
        assert(p@ == all[i as int]);
        assert(rest@ =~= orig.subrange(i + 1, orig.len() as int));
        assert(all.subrange(0, i + 1).drop_last() =~= all.subrange(0, i as int));
        assert(all.subrange(0, i + 1).last() == p@);
        proof {
            lemma_pruned_step(all.subrange(0, i + 1));
        }
        if p.chapters.len() > 0 {
            assert(pruned(all.subrange(0, i + 1)) == pruned(all.subrange(0, i as int)).push(p@));
            kept.push(p);
            assert(parts_view(kept@) =~= k0.push(p@));
        } else {
            assert(pruned(all.subrange(0, i + 1)) == pruned(all.subrange(0, i as int)));
        }
        i = i + 1;
    }
    assert(all.subrange(0, i as int) =~= all);
    kept
}

impl Normalize for Part {
    open spec fn normalized(&self) -> Result<PartV, ErrorV> {
        part_normalized(self@)
    }

    /// A part whose own markers are rejected is unchanged; a part that fails
    /// in one of its chapters is left without chapters.
    open spec fn after_failure(&self) -> PartV {
        if container_error(self@.markers) is Some {
            self@
        } else {
            PartV { chapters: Seq::empty(), ..self@ }
        }
    }

    fn normalize(&mut self) -> (r: Result<(), SitemapError>) {
        proof {
            reveal(part_normalized);
        }
        match self.markers.normalize() {
            Err(e) => {
                return Err(e);
            },
            Ok(()) => {},
        }
        match deny_parameters(&self.markers) {
            Err(e) => {
                return Err(e);
            },
            Ok(()) => {},
        }
        let mut chapters: Vec<Chapter> = Vec::new();
        std::mem::swap(&mut chapters, &mut self.chapters);
        assert(self@.chapters =~= Seq::<ChapterV>::empty());
        match normalize_chapters(&self.markers, chapters) {
            Err(e) => Err(e),
            Ok(done) => {
                self.chapters = done;
                Ok(())
            },
        }
    }
}

impl Normalize for Book {
    open spec fn normalized(&self) -> Result<BookV, ErrorV> {
        book_normalized(self@)
    }

    /// A book whose own markers are rejected is unchanged; a book that fails
    /// in one of its parts is left without parts.
    open spec fn after_failure(&self) -> BookV {
        if container_error(self@.markers) is Some {
            self@
        } else {
            BookV { parts: Seq::empty(), ..self@ }
        }
    }

    fn normalize(&mut self) -> (r: Result<(), SitemapError>) {
        match self.markers.normalize() {
            Err(e) => {
                return Err(e);
            },
            Ok(()) => {},
        }
        match deny_parameters(&self.markers) {
            Err(e) => {
                return Err(e);
            },
            Ok(()) => {},
        }
        let mut parts: Vec<Part> = Vec::new();
        std::mem::swap(&mut parts, &mut self.parts);
        assert(self@.parts =~= Seq::<PartV>::empty());
        match normalize_parts(&self.markers, parts) {
            Err(e) => Err(e),
            Ok(done) => {
                self.parts = prune(done);
                Ok(())
            },
        }
    }
}

} // verus!
