//! Properties of normalization that hold for all inputs.

use vstd::prelude::*;

use crate::normalize::{
    alias_fault, book_normalized, consistent, lemma_pruned_step, chapter_normalized, chapters_normalized, defines,
    expanded_markers, first_alias_fault, first_conflict, has_key, has_name, inherit,
    inherit_aliases, part_normalized, parts_normalized, propagated, pruned, validation_error,
    conflict_at, container_error, has_parameters, chapter_inheriting, part_inheriting, expanded,
};
use crate::builder::{
    book_spec, chapter_spec, chapters_in, first_book_heading, first_list, first_of, first_reference,
    markers_under, part_spec, parts_in, references_free,
};
use crate::sitemap::{empty_markers, BookV, ChapterV, MarkersV, PartV, SubtargetV};
use crate::tree::{Element, Heading, List, ListItem};

verus! {

/// Markers that pass self-validation never both include and exclude a name.
pub proof fn law_validated_disjoint(m: MarkersV)
    requires
        validation_error(m) is None,
    ensures
        forall|n: Seq<char>| !(has_name(m.includes, n) && has_name(m.exclude, n)),
{
    assert forall|n: Seq<char>| !(has_name(m.includes, n) && has_name(m.exclude, n)) by {
        if has_name(m.includes, n) && has_name(m.exclude, n) {
            let i = choose|i: int| 0 <= i < m.includes.len() && (#[trigger] m.includes[i]).name == n;
            assert(conflict_at(m, i));
            assert(first_conflict(m) is Some);
        }
    }
}

/// Self-validation succeeds exactly on consistent markers.
pub proof fn law_validation_exact(m: MarkersV)
    ensures
        validation_error(m) is None <==> consistent(m),
{
    if validation_error(m) is None {
        law_validated_disjoint(m);
        law_validated_aliases(m);
    }
    if consistent(m) {
        assert(!exists|i: int| 0 <= i < m.includes.len() && conflict_at(m, i));
        assert forall|k: int| 0 <= k < m.alias.len() implies alias_fault(m, k) is None by {
            if has_key(m.alias.take(k), m.alias[k].0) {
                let j = choose|j: int| 0 <= j < m.alias.take(k).len() && (#[trigger] m.alias.take(k)[j]).0 == m.alias[k].0;
                assert(m.alias.take(k)[j] == m.alias[j]);
            }
        }
        assert(!exists|k: int| 0 <= k < m.alias.len() && alias_fault(m, k) is Some);
    }
}

proof fn lemma_first_alias_fault_exists(m: MarkersV, k: int)
    requires
        0 <= k < m.alias.len(),
        alias_fault(m, k) is Some,
    ensures
        exists|c: int|
            0 <= c < m.alias.len() && alias_fault(m, c) is Some && forall|j: int|
                0 <= j < c ==> (#[trigger] alias_fault(m, j)) is None,
    decreases k,
{
    if exists|j: int| 0 <= j < k && (#[trigger] alias_fault(m, j)) is Some {
        let j = choose|j: int| 0 <= j < k && (#[trigger] alias_fault(m, j)) is Some;
        lemma_first_alias_fault_exists(m, j);
    }
}

/// In markers that pass self-validation every alias points to an included or
/// excluded name and is itself neither included nor excluded, and no two
/// aliases have the same name.
pub proof fn law_validated_aliases(m: MarkersV)
    requires
        validation_error(m) is None,
    ensures
        forall|k: int|
            0 <= k < m.alias.len() ==> defines(m, (#[trigger] m.alias[k]).1) && !defines(
                m,
                m.alias[k].0,
            ),
        forall|j: int, k: int|
            0 <= j < k < m.alias.len() ==> (#[trigger] m.alias[j]).0 != (#[trigger] m.alias[k]).0,
{
    assert forall|k: int| 0 <= k < m.alias.len() implies defines(m, (#[trigger] m.alias[k]).1)
        && !defines(m, m.alias[k].0) by {
        if alias_fault(m, k) is Some {
            lemma_first_alias_fault_exists(m, k);
            assert(first_alias_fault(m) is Some);
        }
    }
    assert forall|k: int| 0 <= k < m.alias.len() implies alias_fault(m, k) is None by {
        if alias_fault(m, k) is Some {
            lemma_first_alias_fault_exists(m, k);
            assert(first_alias_fault(m) is Some);
        }
    }
    assert forall|j: int, k: int| 0 <= j < k < m.alias.len() implies (#[trigger] m.alias[j]).0
        != (#[trigger] m.alias[k]).0 by {
        if m.alias[j].0 == m.alias[k].0 {
            assert(m.alias.take(k)[j] == m.alias[j]);
            assert(has_key(m.alias.take(k), m.alias[k].0));
            assert(alias_fault(m, k) is None);
        }
    }
}

proof fn lemma_inherit_extends(own: Seq<SubtargetV>, other: Seq<SubtargetV>, inc: Seq<SubtargetV>)
    ensures
        own.len() <= inherit(own, other, inc).len(),
        forall|i: int| 0 <= i < own.len() ==> inherit(own, other, inc)[i] == own[i],
    decreases inc.len(),
{
    if inc.len() > 0 {
        lemma_inherit_extends(own, other, inc.drop_last());
    }
}

proof fn lemma_has_name_extends(a: Seq<SubtargetV>, b: Seq<SubtargetV>, n: Seq<char>)
    requires
        a.len() <= b.len(),
        forall|i: int| 0 <= i < a.len() ==> b[i] == a[i],
        has_name(a, n),
    ensures
        has_name(b, n),
{
    let i = choose|i: int| 0 <= i < a.len() && (#[trigger] a[i]).name == n;
    assert(b[i].name == n);
}

proof fn lemma_inherit_covers(own: Seq<SubtargetV>, other: Seq<SubtargetV>, inc: Seq<SubtargetV>)
    ensures
        forall|i: int|
            0 <= i < inc.len() ==> has_name(inherit(own, other, inc), (#[trigger] inc[i]).name)
                || has_name(other, inc[i].name),
    decreases inc.len(),
{
    if inc.len() > 0 {
        let prev = inherit(own, other, inc.drop_last());
        let r = inherit(own, other, inc);
        lemma_inherit_covers(own, other, inc.drop_last());
        assert forall|i: int| 0 <= i < inc.len() implies has_name(r, (#[trigger] inc[i]).name)
            || has_name(other, inc[i].name) by {
            if i < inc.len() - 1 {
                assert(inc.drop_last()[i] == inc[i]);
                if has_name(prev, inc[i].name) {
                    lemma_has_name_extends(prev, r, inc[i].name);
                }
            } else if !has_name(prev, inc[i].name) && !has_name(other, inc[i].name) {
                assert(r[prev.len() as int] == inc[i]);
            }
        }
    }
}

proof fn lemma_inherit_stable(own: Seq<SubtargetV>, other: Seq<SubtargetV>, inc: Seq<SubtargetV>)
    requires
        forall|i: int|
            0 <= i < inc.len() ==> has_name(own, (#[trigger] inc[i]).name) || has_name(
                other,
                inc[i].name,
            ),
    ensures
        inherit(own, other, inc) == own,
    decreases inc.len(),
{
    if inc.len() > 0 {
        assert forall|i: int| 0 <= i < inc.drop_last().len() implies has_name(
            own,
            (#[trigger] inc.drop_last()[i]).name,
        ) || has_name(other, inc.drop_last()[i].name) by {
            assert(inc.drop_last()[i] == inc[i]);
        }
        lemma_inherit_stable(own, other, inc.drop_last());
        assert(has_name(own, inc[inc.len() - 1].name) || has_name(other, inc[inc.len() - 1].name));
    }
}

proof fn lemma_aliases_covers(own: Seq<(Seq<char>, Seq<char>)>, inc: Seq<(Seq<char>, Seq<char>)>)
    ensures
        forall|i: int|
            0 <= i < inc.len() ==> has_key(inherit_aliases(own, inc), (#[trigger] inc[i]).0),
    decreases inc.len(),
{
    if inc.len() > 0 {
        let prev = inherit_aliases(own, inc.drop_last());
        let r = inherit_aliases(own, inc);
        lemma_aliases_covers(own, inc.drop_last());
        assert forall|i: int| 0 <= i < inc.len() implies has_key(r, (#[trigger] inc[i]).0) by {
            if i < inc.len() - 1 {
                assert(inc.drop_last()[i] == inc[i]);
                if !has_key(prev, inc.last().0) {
                    let j = choose|j: int| 0 <= j < prev.len() && (#[trigger] prev[j]).0 == inc[i].0;
                    assert(r[j] == prev[j]);
                }
            } else if !has_key(prev, inc[i].0) {
                assert(r[prev.len() as int] == inc[i]);
            }
        }
    }
}

proof fn lemma_aliases_stable(own: Seq<(Seq<char>, Seq<char>)>, inc: Seq<(Seq<char>, Seq<char>)>)
    requires
        forall|i: int| 0 <= i < inc.len() ==> has_key(own, (#[trigger] inc[i]).0),
    ensures
        inherit_aliases(own, inc) == own,
    decreases inc.len(),
{
    if inc.len() > 0 {
        assert forall|i: int| 0 <= i < inc.drop_last().len() implies has_key(
            own,
            (#[trigger] inc.drop_last()[i]).0,
        ) by {
            assert(inc.drop_last()[i] == inc[i]);
        }
        lemma_aliases_stable(own, inc.drop_last());
        assert(has_key(own, inc[inc.len() - 1].0));
    }
}

/// Propagating the same container markers to a child twice gives the child the
/// same markers as propagating them once: whatever the child defines, by itself
/// or by the first propagation, suppresses what would be inherited again.
pub proof fn law_propagation_idempotent(parent: MarkersV, child: MarkersV)
    ensures
        propagated(parent, propagated(parent, child)) == propagated(parent, child),
{
    let c1 = propagated(parent, child);
    lemma_inherit_covers(child.includes, child.exclude, parent.includes);
    lemma_inherit_extends(child.exclude, c1.includes, parent.exclude);
    assert forall|i: int| 0 <= i < parent.includes.len() implies has_name(
        c1.includes,
        (#[trigger] parent.includes[i]).name,
    ) || has_name(c1.exclude, parent.includes[i].name) by {
        if has_name(child.exclude, parent.includes[i].name) {
            lemma_has_name_extends(child.exclude, c1.exclude, parent.includes[i].name);
        }
    }
    lemma_inherit_stable(c1.includes, c1.exclude, parent.includes);
    lemma_inherit_covers(child.exclude, c1.includes, parent.exclude);
    assert forall|i: int| 0 <= i < parent.exclude.len() implies has_name(
        c1.exclude,
        (#[trigger] parent.exclude[i]).name,
    ) || has_name(c1.includes, parent.exclude[i].name) by {}
    lemma_inherit_stable(c1.exclude, c1.includes, parent.exclude);
    lemma_aliases_covers(child.alias, parent.alias);
    lemma_aliases_stable(c1.alias, parent.alias);
}

proof fn lemma_inherit_new(own: Seq<SubtargetV>, other: Seq<SubtargetV>, inc: Seq<SubtargetV>)
    ensures
        forall|i: int|
            own.len() <= i < inherit(own, other, inc).len() ==> !has_name(
                own,
                (#[trigger] inherit(own, other, inc)[i]).name,
            ) && !has_name(other, inherit(own, other, inc)[i].name),
    decreases inc.len(),
{
    if inc.len() > 0 {
        let prev = inherit(own, other, inc.drop_last());
        lemma_inherit_new(own, other, inc.drop_last());
        lemma_inherit_extends(own, other, inc.drop_last());
        let s = inc.last();
        if !(has_name(prev, s.name) || has_name(other, s.name)) {
            if has_name(own, s.name) {
                lemma_has_name_extends(own, prev, s.name);
            }
        }
    }
}

/// A subtarget name that the child defines is never inherited: after
/// propagation the child keeps its own entries first, and no entry added after
/// them carries a name that the child defined.
pub proof fn law_child_definitions_win(parent: MarkersV, child: MarkersV, n: Seq<char>)
    requires
        defines(child, n),
    ensures
        ({
            let r = propagated(parent, child);
            &&& r.includes.subrange(0, child.includes.len() as int) == child.includes
            &&& r.exclude.subrange(0, child.exclude.len() as int) == child.exclude
            &&& forall|i: int|
                child.includes.len() <= i < r.includes.len() ==> (#[trigger] r.includes[i]).name != n
            &&& forall|i: int|
                child.exclude.len() <= i < r.exclude.len() ==> (#[trigger] r.exclude[i]).name != n
        }),
{
    let r = propagated(parent, child);
    lemma_inherit_extends(child.includes, child.exclude, parent.includes);
    lemma_inherit_new(child.includes, child.exclude, parent.includes);
    lemma_inherit_extends(child.exclude, r.includes, parent.exclude);
    lemma_inherit_new(child.exclude, r.includes, parent.exclude);
    assert(r.includes.subrange(0, child.includes.len() as int) =~= child.includes);
    assert(r.exclude.subrange(0, child.exclude.len() as int) =~= child.exclude);
    assert forall|i: int| child.includes.len() <= i < r.includes.len() implies (
    #[trigger] r.includes[i]).name != n by {
        if r.includes[i].name == n {
            assert(!has_name(child.includes, n) && !has_name(child.exclude, n));
        }
    }
    assert forall|i: int| child.exclude.len() <= i < r.exclude.len() implies (
    #[trigger] r.exclude[i]).name != n by {
        if r.exclude[i].name == n {
            assert(!has_name(child.exclude, n) && !has_name(r.includes, n));
            if has_name(child.includes, n) {
                lemma_has_name_extends(child.includes, r.includes, n);
            }
        }
    }
}

/// Pruning keeps exactly the parts that hold chapters: each kept part holds
/// one, and each part that holds one is kept.
pub proof fn law_pruning_keeps_exactly(ps: Seq<PartV>)
    ensures
        forall|i: int| 0 <= i < pruned(ps).len() ==> (#[trigger] pruned(ps)[i]).chapters.len() > 0,
        forall|i: int|
            0 <= i < ps.len() && (#[trigger] ps[i]).chapters.len() > 0 ==> pruned(ps).contains(
                ps[i],
            ),
{
    broadcast use Seq::lemma_filter_pred, Seq::lemma_filter_contains;

}

/// Pruning keeps the relative order of the parts: pruning a concatenation is
/// the concatenation of the pruned pieces.
pub proof fn law_pruning_keeps_order(a: Seq<PartV>, b: Seq<PartV>)
    ensures
        pruned(a + b) == pruned(a) + pruned(b),
    decreases b.len(),
{
    if b.len() == 0 {
        assert(a + b =~= a);
        assert(pruned(b) =~= Seq::<PartV>::empty()) by {
            reveal(Seq::filter);
        }
        assert(pruned(a) + pruned(b) =~= pruned(a));
    } else {
        law_pruning_keeps_order(a, b.drop_last());
        assert((a + b).drop_last() =~= a + b.drop_last());
        assert((a + b).last() == b.last());
        lemma_pruned_step(a + b);
        lemma_pruned_step(b);
        if b.last().chapters.len() > 0 {
            assert(pruned(a) + pruned(b.drop_last()).push(b.last()) =~= (pruned(a) + pruned(
                b.drop_last(),
            )).push(b.last()));
        }
    }
}

/// No level of the book carries any marker.
pub open spec fn unmarked(b: BookV) -> bool {
    &&& b.markers == empty_markers()
    &&& forall|i: int| 0 <= i < b.parts.len() ==> (#[trigger] b.parts[i]).markers == empty_markers()
    &&& forall|i: int, j: int|
        0 <= i < b.parts.len() && 0 <= j < b.parts[i].chapters.len() ==> (#[trigger] b.parts[i].chapters[j]).markers
            == empty_markers()
}

proof fn lemma_empty_markers_pass()
    ensures
        container_error(empty_markers()) is None,
        propagated(empty_markers(), empty_markers()) == empty_markers(),
        expanded_markers(empty_markers()) == empty_markers(),
{
    let e = empty_markers();
    assert(first_conflict(e) is None);
    assert(first_alias_fault(e) is None);
    assert(!has_parameters(e.includes));
    assert(!has_parameters(e.exclude));
    assert(propagated(e, e) =~= e);
}

proof fn lemma_unmarked_chapters(cs: Seq<ChapterV>)
    requires
        forall|j: int| 0 <= j < cs.len() ==> (#[trigger] cs[j]).markers == empty_markers(),
    ensures
        chapters_normalized(empty_markers(), cs) == Ok::<Seq<ChapterV>, crate::error::ErrorV>(cs),
    decreases cs.len(),
{
    reveal(chapters_normalized);
    reveal(chapter_normalized);
    lemma_empty_markers_pass();
    if cs.len() > 0 {
        assert forall|j: int| 0 <= j < cs.drop_last().len() implies (#[trigger] cs.drop_last()[j]).markers
            == empty_markers() by {
            assert(cs.drop_last()[j] == cs[j]);
        }
        lemma_unmarked_chapters(cs.drop_last());
        let c = cs.last();
        assert(chapter_inheriting(empty_markers(), c) == c);
        assert(chapter_normalized(c) == Ok::<ChapterV, crate::error::ErrorV>(c));
        assert(cs.drop_last().push(c) =~= cs);
    } else {
        assert(cs =~= Seq::<ChapterV>::empty());
    }
}

proof fn lemma_unmarked_parts(ps: Seq<PartV>)
    requires
        forall|i: int| 0 <= i < ps.len() ==> (#[trigger] ps[i]).markers == empty_markers(),
        forall|i: int, j: int|
            0 <= i < ps.len() && 0 <= j < ps[i].chapters.len() ==> (#[trigger] ps[i].chapters[j]).markers
                == empty_markers(),
    ensures
        parts_normalized(empty_markers(), ps) == Ok::<Seq<PartV>, crate::error::ErrorV>(ps),
    decreases ps.len(),
{
    reveal(parts_normalized);
    reveal(part_normalized);
    lemma_empty_markers_pass();
    if ps.len() > 0 {
        let q = ps.drop_last();
        assert forall|i: int| 0 <= i < q.len() implies (#[trigger] q[i]).markers == empty_markers() by {
            assert(q[i] == ps[i]);
        }
        assert forall|i: int, j: int|
            0 <= i < q.len() && 0 <= j < q[i].chapters.len() implies (#[trigger] q[i].chapters[j]).markers
                == empty_markers() by {
            assert(q[i] == ps[i]);
        }
        lemma_unmarked_parts(q);
        let p = ps.last();
        assert(part_inheriting(empty_markers(), p) == p);
        assert forall|j: int| 0 <= j < p.chapters.len() implies (#[trigger] p.chapters[j]).markers
            == empty_markers() by {
            assert(ps[ps.len() - 1].chapters[j].markers == empty_markers());
        }
        lemma_unmarked_chapters(p.chapters);
        assert(part_normalized(p) == Ok::<PartV, crate::error::ErrorV>(p));
        assert(q.push(p) =~= ps);
    } else {
        assert(ps =~= Seq::<PartV>::empty());
    }
}

/// A book without markers normalizes successfully; every markers bundle stays
/// empty, and the only parts removed are those without chapters.
pub proof fn law_unmarked_book(b: BookV)
    requires
        unmarked(b),
    ensures
        book_normalized(b) == Ok::<BookV, crate::error::ErrorV>(BookV { parts: pruned(b.parts), ..b }),
{
    lemma_empty_markers_pass();
    lemma_unmarked_parts(b.parts);
}

/// Extracting a book whose levels carry no markers and normalizing it leaves
/// every markers bundle empty and removes only the parts without chapters.
pub proof fn law_unmarked_round_trip(root: Element)
    requires
        book_spec(root) is Ok,
        unmarked(book_spec(root)->Ok_0),
    ensures
        (match book_spec(root) {
            Err(e) => Err(e),
            Ok(b) => book_normalized(b),
        }) == Ok::<BookV, crate::error::ErrorV>(
            BookV { parts: pruned(book_spec(root)->Ok_0.parts), ..book_spec(root)->Ok_0 },
        ),
{
    law_unmarked_book(book_spec(root)->Ok_0);
}

/// No name is both included and excluded.
pub open spec fn separated(m: MarkersV) -> bool {
    forall|n: Seq<char>| #[trigger] has_name(m.includes, n) ==> !has_name(m.exclude, n)
}

/// No level of the book both includes and excludes a name.
pub open spec fn separated_book(b: BookV) -> bool {
    &&& separated(b.markers)
    &&& forall|i: int| 0 <= i < b.parts.len() ==> separated((#[trigger] b.parts[i]).markers)
    &&& forall|i: int, j: int|
        0 <= i < b.parts.len() && 0 <= j < b.parts[i].chapters.len() ==> separated(
            (#[trigger] b.parts[i].chapters[j]).markers,
        )
}

proof fn lemma_consistent_separated(m: MarkersV)
    requires
        consistent(m),
    ensures
        separated(m),
{
    assert forall|n: Seq<char>| #[trigger] has_name(m.includes, n) implies !has_name(m.exclude, n) by {
        let i = choose|i: int| 0 <= i < m.includes.len() && (#[trigger] m.includes[i]).name == n;
        assert(!has_name(m.exclude, m.includes[i].name));
    }
}

proof fn lemma_has_name_push(s: Seq<SubtargetV>, x: SubtargetV, n: Seq<char>)
    ensures
        has_name(s.push(x), n) <==> has_name(s, n) || x.name == n,
{
    if has_name(s, n) {
        let i = choose|i: int| 0 <= i < s.len() && (#[trigger] s[i]).name == n;
        assert(s.push(x)[i] == s[i]);
    }
    if x.name == n {
        assert(s.push(x)[s.len() as int] == x);
    }
    if has_name(s.push(x), n) && x.name != n {
        let i = choose|i: int| 0 <= i < s.push(x).len() && (#[trigger] s.push(x)[i]).name == n;
        assert(s[i] == s.push(x)[i]);
    }
}

/// The names of `s` after alias expansion: its own, and the name of every alias
/// whose target it names (no alias target being an alias name).
proof fn lemma_expanded_names(s: Seq<SubtargetV>, al: Seq<(Seq<char>, Seq<char>)>, n: Seq<char>)
    requires
        forall|j: int, k: int| 0 <= j < al.len() && 0 <= k < al.len() ==> (#[trigger] al[j]).1 != (#[trigger] al[k]).0,
    ensures
        has_name(expanded(s, al), n) <==> has_name(s, n) || exists|k: int|
            0 <= k < al.len() && (#[trigger] al[k]).0 == n && has_name(s, al[k].1),
    decreases al.len(),
{
    if al.len() > 0 {
        let d = al.drop_last();
        let e = al.last();
        let prev = expanded(s, d);
        assert forall|j: int, k: int| 0 <= j < d.len() && 0 <= k < d.len() implies (#[trigger] d[j]).1
            != (#[trigger] d[k]).0 by {
            assert(d[j] == al[j] && d[k] == al[k]);
        }
        lemma_expanded_names(s, d, n);
        lemma_expanded_names(s, d, e.1);
        if exists|k: int| 0 <= k < d.len() && (#[trigger] d[k]).0 == e.1 && has_name(s, d[k].1) {
            let k = choose|k: int| 0 <= k < d.len() && (#[trigger] d[k]).0 == e.1 && has_name(s, d[k].1);
            assert(d[k] == al[k]);
            assert(al[al.len() - 1].1 != al[k].0);
        }
        if has_name(prev, e.1) {
            let x = prev[first_named_index(prev, e.1)];
            lemma_has_name_push(prev, SubtargetV { name: e.0, parameters: x.parameters }, n);
        }
        if exists|k: int| 0 <= k < d.len() && (#[trigger] d[k]).0 == n && has_name(s, d[k].1) {
            let k = choose|k: int| 0 <= k < d.len() && (#[trigger] d[k]).0 == n && has_name(s, d[k].1);
            assert(d[k] == al[k]);
        }
        if exists|k: int| 0 <= k < al.len() && (#[trigger] al[k]).0 == n && has_name(s, al[k].1) {
            let k = choose|k: int| 0 <= k < al.len() && (#[trigger] al[k]).0 == n && has_name(s, al[k].1);
            if k < d.len() {
                assert(d[k] == al[k]);
            }
        }
    }
}

spec fn first_named_index(s: Seq<SubtargetV>, n: Seq<char>) -> int {
    crate::normalize::first_named(s, n)->0
}

/// Expanding the aliases of consistent markers keeps included and excluded
/// names apart.
pub proof fn law_expansion_separated(m: MarkersV)
    requires
        consistent(m),
    ensures
        separated(expanded_markers(m)),
{
    let al = m.alias;
    let r = expanded_markers(m);
    assert forall|j: int, k: int| 0 <= j < al.len() && 0 <= k < al.len() implies (#[trigger] al[j]).1
        != (#[trigger] al[k]).0 by {
        assert(defines(m, al[j].1) && !defines(m, al[k].0));
    }
    lemma_consistent_separated(m);
    assert forall|n: Seq<char>| #[trigger] has_name(r.includes, n) implies !has_name(r.exclude, n) by {
        lemma_expanded_names(m.includes, al, n);
        lemma_expanded_names(m.exclude, al, n);
        if has_name(r.exclude, n) {
            if has_name(m.includes, n) {
                if exists|k: int| 0 <= k < al.len() && (#[trigger] al[k]).0 == n && has_name(m.exclude, al[k].1) {
                    let k = choose|k: int| 0 <= k < al.len() && (#[trigger] al[k]).0 == n && has_name(m.exclude, al[k].1);
                    assert(!defines(m, al[k].0));
                }
            } else {
                let k = choose|k: int| 0 <= k < al.len() && (#[trigger] al[k]).0 == n && has_name(m.includes, al[k].1);
                assert(!defines(m, al[k].0));
                if !has_name(m.exclude, n) {
                    let k2 = choose|k2: int| 0 <= k2 < al.len() && (#[trigger] al[k2]).0 == n && has_name(m.exclude, al[k2].1);
                    if k < k2 {
                        assert(al[k].0 != al[k2].0);
                    } else if k2 < k {
                        assert(al[k2].0 != al[k].0);
                    }
                    assert(has_name(m.includes, al[k].1));
                }
            }
        }
    }
}

/// A chapter that normalizes successfully never both includes and excludes a
/// name, aliases expanded.
pub proof fn law_chapter_separated(c: ChapterV)
    requires
        chapter_normalized(c) is Ok,
    ensures
        separated(chapter_normalized(c)->Ok_0.markers),
{
    reveal(chapter_normalized);
    law_validation_exact(c.markers);
    law_expansion_separated(c.markers);
}

proof fn lemma_chapters_separated(m: MarkersV, cs: Seq<ChapterV>)
    requires
        chapters_normalized(m, cs) is Ok,
    ensures
        forall|j: int|
            0 <= j < chapters_normalized(m, cs)->Ok_0.len() ==> separated(
                (#[trigger] chapters_normalized(m, cs)->Ok_0[j]).markers,
            ),
    decreases cs.len(),
{
    reveal(chapters_normalized);
    if cs.len() > 0 {
        lemma_chapters_separated(m, cs.drop_last());
        let c = chapter_inheriting(m, cs.last());
        law_chapter_separated(c);
        let prev = chapters_normalized(m, cs.drop_last())->Ok_0;
        let r = chapters_normalized(m, cs)->Ok_0;
        assert forall|j: int| 0 <= j < r.len() implies separated((#[trigger] r[j]).markers) by {
            if j < prev.len() {
                assert(r[j] == prev[j]);
            }
        }
    }
}

proof fn lemma_part_separated(p: PartV)
    requires
        part_normalized(p) is Ok,
    ensures
        separated(part_normalized(p)->Ok_0.markers),
        forall|j: int|
            0 <= j < part_normalized(p)->Ok_0.chapters.len() ==> separated(
                (#[trigger] part_normalized(p)->Ok_0.chapters[j]).markers,
            ),
{
    reveal(part_normalized);
    law_validation_exact(p.markers);
    lemma_consistent_separated(p.markers);
    lemma_chapters_separated(p.markers, p.chapters);
}

proof fn lemma_parts_separated(m: MarkersV, ps: Seq<PartV>)
    requires
        parts_normalized(m, ps) is Ok,
    ensures
        forall|i: int|
            0 <= i < parts_normalized(m, ps)->Ok_0.len() ==> separated(
                (#[trigger] parts_normalized(m, ps)->Ok_0[i]).markers,
            ),
        forall|i: int, j: int|
            0 <= i < parts_normalized(m, ps)->Ok_0.len() && 0 <= j < parts_normalized(
                m,
                ps,
            )->Ok_0[i].chapters.len() ==> separated(
                (#[trigger] parts_normalized(m, ps)->Ok_0[i].chapters[j]).markers,
            ),
    decreases ps.len(),
{
    reveal(parts_normalized);
    if ps.len() > 0 {
        lemma_parts_separated(m, ps.drop_last());
        let p = part_inheriting(m, ps.last());
        lemma_part_separated(p);
        let prev = parts_normalized(m, ps.drop_last())->Ok_0;
        let r = parts_normalized(m, ps)->Ok_0;
        assert forall|i: int| 0 <= i < r.len() implies separated((#[trigger] r[i]).markers) by {
            if i < prev.len() {
                assert(r[i] == prev[i]);
            }
        }
        assert forall|i: int, j: int| 0 <= i < r.len() && 0 <= j < r[i].chapters.len() implies separated(
            (#[trigger] r[i].chapters[j]).markers,
        ) by {
            if i < prev.len() {
                assert(r[i] == prev[i]);
            }
        }
    }
}

/// A book that normalizes successfully never both includes and excludes a
/// name, at any level, aliases expanded.
pub proof fn law_book_separated(b: BookV)
    requires
        book_normalized(b) is Ok,
    ensures
        separated_book(book_normalized(b)->Ok_0),
{
    broadcast use Seq::lemma_filter_contains_rev;

    law_validation_exact(b.markers);
    lemma_consistent_separated(b.markers);
    let ps = parts_normalized(b.markers, b.parts)->Ok_0;
    lemma_parts_separated(b.markers, b.parts);
    let r = book_normalized(b)->Ok_0;
    assert forall|i: int| 0 <= i < r.parts.len() implies exists|k: int|
        0 <= k < ps.len() && ps[k] == #[trigger] r.parts[i] by {
        assert(pruned(ps).contains(r.parts[i]));
        assert(ps.contains(r.parts[i]));
    }
    assert forall|i: int| 0 <= i < r.parts.len() implies separated((#[trigger] r.parts[i]).markers) by {
        let k = choose|k: int| 0 <= k < ps.len() && ps[k] == r.parts[i];
        assert(separated(ps[k].markers));
    }
    assert forall|i: int, j: int| 0 <= i < r.parts.len() && 0 <= j < r.parts[i].chapters.len() implies separated(
        (#[trigger] r.parts[i].chapters[j]).markers,
    ) by {
        let k = choose|k: int| 0 <= k < ps.len() && ps[k] == r.parts[i];
        assert(ps[k].chapters[j] == r.parts[i].chapters[j]);
    }
}

/// The chapters `rs` are the chapters `cs`, in order, up to their markers.
pub open spec fn same_chapters(rs: Seq<ChapterV>, cs: Seq<ChapterV>) -> bool {
    &&& rs.len() == cs.len()
    &&& forall|j: int|
        0 <= j < cs.len() ==> (#[trigger] rs[j]).title == cs[j].title && rs[j].path == cs[j].path
            && rs[j].revision == cs[j].revision
}

/// The parts `qs` are the parts `ps`, in order, up to markers: same titles and
/// the same chapters.
pub open spec fn same_parts(qs: Seq<PartV>, ps: Seq<PartV>) -> bool {
    &&& qs.len() == ps.len()
    &&& forall|i: int|
        0 <= i < ps.len() ==> (#[trigger] qs[i]).title == ps[i].title && same_chapters(
            qs[i].chapters,
            ps[i].chapters,
        )
}

proof fn lemma_chapters_outline(m: MarkersV, cs: Seq<ChapterV>)
    requires
        chapters_normalized(m, cs) is Ok,
    ensures
        same_chapters(chapters_normalized(m, cs)->Ok_0, cs),
    decreases cs.len(),
{
    reveal(chapters_normalized);
    reveal(chapter_normalized);
    if cs.len() > 0 {
        lemma_chapters_outline(m, cs.drop_last());
        let prev = chapters_normalized(m, cs.drop_last())->Ok_0;
        let r = chapters_normalized(m, cs)->Ok_0;
        assert forall|j: int| 0 <= j < cs.len() implies (#[trigger] r[j]).title == cs[j].title
            && r[j].path == cs[j].path && r[j].revision == cs[j].revision by {
            if j < prev.len() {
                assert(r[j] == prev[j]);
                assert(cs.drop_last()[j] == cs[j]);
            }
        }
    }
}

proof fn lemma_parts_outline(m: MarkersV, ps: Seq<PartV>)
    requires
        parts_normalized(m, ps) is Ok,
    ensures
        same_parts(parts_normalized(m, ps)->Ok_0, ps),
    decreases ps.len(),
{
    reveal(parts_normalized);
    reveal(part_normalized);
    if ps.len() > 0 {
        lemma_parts_outline(m, ps.drop_last());
        let p = part_inheriting(m, ps.last());
        lemma_chapters_outline(p.markers, p.chapters);
        let prev = parts_normalized(m, ps.drop_last())->Ok_0;
        let r = parts_normalized(m, ps)->Ok_0;
        assert forall|i: int| 0 <= i < ps.len() implies (#[trigger] r[i]).title == ps[i].title
            && same_chapters(r[i].chapters, ps[i].chapters) by {
            if i < prev.len() {
                assert(r[i] == prev[i]);
                assert(ps.drop_last()[i] == ps[i]);
            }
        }
    }
}

/// Normalization keeps the outline of the book: the normalized parts are the
/// book's parts in order, with the same titles and the same chapters in the
/// same order; then exactly those without chapters are pruned.
pub proof fn law_normalization_keeps_outline(b: BookV)
    requires
        book_normalized(b) is Ok,
    ensures
        ({
            let qs = parts_normalized(b.markers, b.parts)->Ok_0;
            &&& same_parts(qs, b.parts)
            &&& book_normalized(b)->Ok_0.parts == pruned(qs)
            &&& book_normalized(b)->Ok_0.title == b.title
        }),
{
    lemma_parts_outline(b.markers, b.parts);
}

/// No level of the book declares aliases.
pub open spec fn alias_free(b: BookV) -> bool {
    &&& b.markers.alias.len() == 0
    &&& forall|i: int| 0 <= i < b.parts.len() ==> (#[trigger] b.parts[i]).markers.alias.len() == 0
    &&& forall|i: int, j: int|
        0 <= i < b.parts.len() && 0 <= j < b.parts[i].chapters.len() ==> (#[trigger] b.parts[i].chapters[j]).markers.alias.len()
            == 0
}

proof fn lemma_chapters_each(m: MarkersV, cs: Seq<ChapterV>)
    requires
        chapters_normalized(m, cs) is Ok,
    ensures
        chapters_normalized(m, cs)->Ok_0.len() == cs.len(),
        forall|j: int|
            0 <= j < cs.len() ==> chapter_normalized(chapter_inheriting(m, #[trigger] cs[j])) == Ok::<
                ChapterV,
                crate::error::ErrorV,
            >(chapters_normalized(m, cs)->Ok_0[j]),
    decreases cs.len(),
{
    reveal(chapters_normalized);
    if cs.len() > 0 {
        lemma_chapters_each(m, cs.drop_last());
        let prev = chapters_normalized(m, cs.drop_last())->Ok_0;
        let r = chapters_normalized(m, cs)->Ok_0;
        assert forall|j: int| 0 <= j < cs.len() implies chapter_normalized(
            chapter_inheriting(m, #[trigger] cs[j]),
        ) == Ok::<ChapterV, crate::error::ErrorV>(r[j]) by {
            if j < prev.len() {
                assert(r[j] == prev[j]);
                assert(cs.drop_last()[j] == cs[j]);
            }
        }
    }
}

proof fn lemma_parts_each(m: MarkersV, ps: Seq<PartV>)
    requires
        parts_normalized(m, ps) is Ok,
    ensures
        parts_normalized(m, ps)->Ok_0.len() == ps.len(),
        forall|i: int|
            0 <= i < ps.len() ==> part_normalized(part_inheriting(m, #[trigger] ps[i])) == Ok::<
                PartV,
                crate::error::ErrorV,
            >(parts_normalized(m, ps)->Ok_0[i]),
    decreases ps.len(),
{
    reveal(parts_normalized);
    if ps.len() > 0 {
        lemma_parts_each(m, ps.drop_last());
        let prev = parts_normalized(m, ps.drop_last())->Ok_0;
        let r = parts_normalized(m, ps)->Ok_0;
        assert forall|i: int| 0 <= i < ps.len() implies part_normalized(
            part_inheriting(m, #[trigger] ps[i]),
        ) == Ok::<PartV, crate::error::ErrorV>(r[i]) by {
            if i < prev.len() {
                assert(r[i] == prev[i]);
                assert(ps.drop_last()[i] == ps[i]);
            }
        }
    }
}

proof fn lemma_chapters_fixed(m: MarkersV, xs: Seq<ChapterV>)
    requires
        forall|j: int|
            0 <= j < xs.len() ==> chapter_normalized(chapter_inheriting(m, #[trigger] xs[j])) == Ok::<
                ChapterV,
                crate::error::ErrorV,
            >(xs[j]),
    ensures
        chapters_normalized(m, xs) == Ok::<Seq<ChapterV>, crate::error::ErrorV>(xs),
    decreases xs.len(),
{
    reveal(chapters_normalized);
    if xs.len() > 0 {
        let d = xs.drop_last();
        assert forall|j: int| 0 <= j < d.len() implies chapter_normalized(
            chapter_inheriting(m, #[trigger] d[j]),
        ) == Ok::<ChapterV, crate::error::ErrorV>(d[j]) by {
            assert(d[j] == xs[j]);
        }
        lemma_chapters_fixed(m, d);
        assert(xs[xs.len() - 1] == xs.last());
        assert(d.push(xs.last()) =~= xs);
    } else {
        assert(xs =~= Seq::<ChapterV>::empty());
    }
}

proof fn lemma_parts_fixed(m: MarkersV, xs: Seq<PartV>)
    requires
        forall|i: int|
            0 <= i < xs.len() ==> part_normalized(part_inheriting(m, #[trigger] xs[i])) == Ok::<
                PartV,
                crate::error::ErrorV,
            >(xs[i]),
    ensures
        parts_normalized(m, xs) == Ok::<Seq<PartV>, crate::error::ErrorV>(xs),
    decreases xs.len(),
{
    reveal(parts_normalized);
    if xs.len() > 0 {
        let d = xs.drop_last();
        assert forall|i: int| 0 <= i < d.len() implies part_normalized(
            part_inheriting(m, #[trigger] d[i]),
        ) == Ok::<PartV, crate::error::ErrorV>(d[i]) by {
            assert(d[i] == xs[i]);
        }
        lemma_parts_fixed(m, d);
        assert(xs[xs.len() - 1] == xs.last());
        assert(d.push(xs.last()) =~= xs);
    } else {
        assert(xs =~= Seq::<PartV>::empty());
    }
}

proof fn lemma_chapter_twice(m: MarkersV, c: ChapterV)
    requires
        m.alias.len() == 0,
        c.markers.alias.len() == 0,
        chapter_normalized(chapter_inheriting(m, c)) is Ok,
    ensures
        ({
            let r = chapter_normalized(chapter_inheriting(m, c))->Ok_0;
            chapter_normalized(chapter_inheriting(m, r)) == Ok::<ChapterV, crate::error::ErrorV>(r)
        }),
{
    reveal(chapter_normalized);
    let once = propagated(m, c.markers);
    assert(once.alias == inherit_aliases(c.markers.alias, m.alias));
    assert(once.alias.len() == 0);
    assert(expanded_markers(once) =~= once);
    law_propagation_idempotent(m, c.markers);
}

proof fn lemma_part_twice(m: MarkersV, p: PartV)
    requires
        m.alias.len() == 0,
        p.markers.alias.len() == 0,
        forall|j: int| 0 <= j < p.chapters.len() ==> (#[trigger] p.chapters[j]).markers.alias.len() == 0,
        part_normalized(part_inheriting(m, p)) is Ok,
    ensures
        ({
            let q = part_normalized(part_inheriting(m, p))->Ok_0;
            part_normalized(part_inheriting(m, q)) == Ok::<PartV, crate::error::ErrorV>(q)
        }),
{
    reveal(part_normalized);
    let pi = part_inheriting(m, p);
    let q = part_normalized(pi)->Ok_0;
    assert(pi.markers.alias == inherit_aliases(p.markers.alias, m.alias));
    assert(pi.markers.alias.len() == 0);
    law_propagation_idempotent(m, p.markers);
    assert(part_inheriting(m, q) == q);
    lemma_chapters_each(pi.markers, pi.chapters);
    let cs = chapters_normalized(pi.markers, pi.chapters)->Ok_0;
    assert forall|j: int| 0 <= j < cs.len() implies chapter_normalized(
        chapter_inheriting(pi.markers, #[trigger] cs[j]),
    ) == Ok::<ChapterV, crate::error::ErrorV>(cs[j]) by {
        lemma_chapter_twice(pi.markers, pi.chapters[j]);
    }
    lemma_chapters_fixed(pi.markers, cs);
}

proof fn lemma_pruned_all_kept(ps: Seq<PartV>)
    requires
        forall|i: int| 0 <= i < ps.len() ==> (#[trigger] ps[i]).chapters.len() > 0,
    ensures
        pruned(ps) == ps,
    decreases ps.len(),
{
    if ps.len() > 0 {
        let d = ps.drop_last();
        assert forall|i: int| 0 <= i < d.len() implies (#[trigger] d[i]).chapters.len() > 0 by {
            assert(d[i] == ps[i]);
        }
        lemma_pruned_all_kept(d);
        lemma_pruned_step(ps);
        assert(ps[ps.len() - 1] == ps.last());
        assert(d.push(ps.last()) =~= ps);
    } else {
        reveal(Seq::filter);
        assert(ps.filter(|p: PartV| p.chapters.len() > 0) =~= ps);
    }
}

/// Normalizing a book that declares no aliases twice gives what normalizing it
/// once gives: nothing is inherited a second time and nothing more is pruned.
pub proof fn law_book_normalization_idempotent(b: BookV)
    requires
        alias_free(b),
        book_normalized(b) is Ok,
    ensures
        book_normalized(book_normalized(b)->Ok_0) == book_normalized(b),
{
    broadcast use Seq::lemma_filter_contains_rev, Seq::lemma_filter_pred;

    let bm = b.markers;
    let qs = parts_normalized(bm, b.parts)->Ok_0;
    let r = book_normalized(b)->Ok_0;
    lemma_parts_each(bm, b.parts);
    assert forall|i: int| 0 <= i < qs.len() implies part_normalized(
        part_inheriting(bm, #[trigger] qs[i]),
    ) == Ok::<PartV, crate::error::ErrorV>(qs[i]) by {
        let p = b.parts[i];
        assert forall|j: int| 0 <= j < p.chapters.len() implies (#[trigger] p.chapters[j]).markers.alias.len()
            == 0 by {
            assert(b.parts[i].chapters[j] == p.chapters[j]);
        }
        lemma_part_twice(bm, p);
    }
    let kept = pruned(qs);
    assert forall|i: int| 0 <= i < kept.len() implies part_normalized(
        part_inheriting(bm, #[trigger] kept[i]),
    ) == Ok::<PartV, crate::error::ErrorV>(kept[i]) && kept[i].chapters.len() > 0 by {
        assert(kept.contains(kept[i]));
        assert(qs.contains(kept[i]));
        let k = choose|k: int| 0 <= k < qs.len() && qs[k] == kept[i];
        assert(part_normalized(part_inheriting(bm, qs[k])) == Ok::<PartV, crate::error::ErrorV>(qs[k]));
    }
    lemma_parts_fixed(bm, kept);
    lemma_pruned_all_kept(kept);
}

/// An item of a chapter list that refers to an article and nests no list.
pub open spec fn plain_chapter_item(i: ListItem) -> bool {
    first_reference(i.content@) is Some && first_list(i.content@) is None
}

/// A chapter list with at least one item, each item plain.
pub open spec fn plain_chapter_list(l: List) -> bool {
    &&& exists|k: int| 0 <= k < l.content@.len() && (#[trigger] l.content@[k]) is ListItem
    &&& forall|k: int|
        0 <= k < l.content@.len() ==> match #[trigger] l.content@[k] {
            Element::ListItem(i) => plain_chapter_item(i),
            _ => true,
        }
}

/// A part heading whose first list, if any, is a plain chapter list.
pub open spec fn plain_part(h: Heading) -> bool {
    match first_list(h.content@) {
        Some(l) => plain_chapter_list(l),
        None => true,
    }
}

/// A document without marker lists: its book heading holds no list and every
/// part heading in it is plain.
pub open spec fn plain_tree(root: Element) -> bool {
    match root {
        Element::Document(d) => match first_book_heading(d.content@) {
            Some(h) => first_list(h.content@) is None && forall|k: int|
                0 <= k < h.content@.len() ==> match #[trigger] h.content@[k] {
                    Element::Heading(p) => plain_part(p),
                    _ => true,
                },
            None => false,
        },
        _ => false,
    }
}

proof fn lemma_first_reference_exists(c: Seq<Element>)
    requires
        first_reference(c) is Some,
    ensures
        exists|j: int| 0 <= j < c.len() && (#[trigger] c[j]) is InternalReference,
    decreases c.len(),
{
    if !(c[0] is InternalReference) {
        assert(first_reference(c.drop_first()) == first_reference(c));
        lemma_first_reference_exists(c.drop_first());
        let j = choose|j: int| 0 <= j < c.drop_first().len() && (#[trigger] c.drop_first()[j]) is InternalReference;
        assert(c[j + 1] == c.drop_first()[j]);
    }
}

proof fn lemma_plain_chapters(c: Seq<Element>)
    requires
        forall|k: int|
            0 <= k < c.len() ==> match #[trigger] c[k] {
                Element::ListItem(i) => plain_chapter_item(i),
                _ => true,
            },
    ensures
        chapters_in(c) is Ok,
        forall|j: int|
            0 <= j < chapters_in(c)->Ok_0.len() ==> (#[trigger] chapters_in(c)->Ok_0[j]).markers
                == empty_markers(),
    decreases c.len(),
{
    if c.len() > 0 {
        let d = c.drop_last();
        assert forall|k: int| 0 <= k < d.len() implies match #[trigger] d[k] {
            Element::ListItem(i) => plain_chapter_item(i),
            _ => true,
        } by {
            assert(d[k] == c[k]);
        }
        lemma_plain_chapters(d);
        assert(c[c.len() - 1] == c.last());
        let prev = chapters_in(d)->Ok_0;
        let r = chapters_in(c)->Ok_0;
        assert forall|j: int| 0 <= j < r.len() implies (#[trigger] r[j]).markers == empty_markers() by {
            if j < prev.len() {
                assert(r[j] == prev[j]);
            }
        }
    }
}

proof fn lemma_plain_part(h: Heading)
    requires
        plain_part(h),
    ensures
        part_spec(h) is Ok,
        part_spec(h)->Ok_0.markers == empty_markers(),
        forall|j: int|
            0 <= j < part_spec(h)->Ok_0.chapters.len() ==> (#[trigger] part_spec(h)->Ok_0.chapters[j]).markers
                == empty_markers(),
{
    match first_list(h.content@) {
        Some(l) => {
            let k = choose|k: int| 0 <= k < l.content@.len() && (#[trigger] l.content@[k]) is ListItem;
            let i = l.content@[k]->ListItem_0;
            assert(plain_chapter_item(i));
            lemma_first_reference_exists(i.content@);
            let j = choose|j: int| 0 <= j < i.content@.len() && (#[trigger] i.content@[j]) is InternalReference;
            assert(!references_free(l));
            lemma_plain_chapters(l.content@);
        },
        None => {},
    }
}

proof fn lemma_plain_parts(c: Seq<Element>)
    requires
        forall|k: int|
            0 <= k < c.len() ==> match #[trigger] c[k] {
                Element::Heading(p) => plain_part(p),
                _ => true,
            },
    ensures
        parts_in(c) is Ok,
        forall|i: int|
            0 <= i < parts_in(c)->Ok_0.len() ==> (#[trigger] parts_in(c)->Ok_0[i]).markers
                == empty_markers(),
        forall|i: int, j: int|
            0 <= i < parts_in(c)->Ok_0.len() && 0 <= j < parts_in(c)->Ok_0[i].chapters.len()
                ==> (#[trigger] parts_in(c)->Ok_0[i].chapters[j]).markers == empty_markers(),
    decreases c.len(),
{
    if c.len() > 0 {
        let d = c.drop_last();
        assert forall|k: int| 0 <= k < d.len() implies match #[trigger] d[k] {
            Element::Heading(p) => plain_part(p),
            _ => true,
        } by {
            assert(d[k] == c[k]);
        }
        lemma_plain_parts(d);
        assert(c[c.len() - 1] == c.last());
        match c.last() {
            Element::Heading(h) => {
                lemma_plain_part(h);
            },
            _ => {},
        }
        let prev = parts_in(d)->Ok_0;
        let r = parts_in(c)->Ok_0;
        assert forall|i: int| 0 <= i < r.len() implies (#[trigger] r[i]).markers == empty_markers() by {
            if i < prev.len() {
                assert(r[i] == prev[i]);
            }
        }
        assert forall|i: int, j: int| 0 <= i < r.len() && 0 <= j < r[i].chapters.len() implies (
        #[trigger] r[i].chapters[j]).markers == empty_markers() by {
            if i < prev.len() {
                assert(r[i] == prev[i]);
            }
        }
    }
}

/// A document without marker lists is read into a book without markers at any
/// level; normalizing it then keeps every markers bundle empty and removes
/// only the parts without chapters.
pub proof fn law_plain_tree_round_trip(root: Element)
    requires
        plain_tree(root),
    ensures
        book_spec(root) is Ok,
        unmarked(book_spec(root)->Ok_0),
        book_normalized(book_spec(root)->Ok_0) == Ok::<BookV, crate::error::ErrorV>(
            BookV { parts: pruned(book_spec(root)->Ok_0.parts), ..book_spec(root)->Ok_0 },
        ),
{
    match root {
        Element::Document(d) => {
            let h = first_book_heading(d.content@)->0;
            lemma_plain_parts(h.content@);
            assert(markers_under(h.content@) == Ok::<MarkersV, crate::error::ErrorV>(empty_markers()));
            law_unmarked_book(book_spec(root)->Ok_0);
        },
        _ => {},
    }
}

} // verus!
