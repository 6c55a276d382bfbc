use vstd::prelude::*;
use crate::ancestor::{find_most_recent_common_ancestor, result_view, search_finds};
use crate::store::{commit_at, content_at, is_commit_at, is_content_at, placed_at, with_value, ContentStore};
use crate::types::{
    copy_opt_bytes, opt_bytes_eq, edges_view, strings_view, Address, CommitContent, ContentModel,
    EdgeModel, Entry, EntryModel, ErrorModel, FieldModel, MergeField, NamedEdge, Tree, TreeModel,
    VcError,
};

verus! {

/// The three-way rule for one field, given its value in "from", "to" and the
/// ancestor: keep what did not change, take the one side that changed, and
/// `None` (a conflict) when both sides changed it.
pub open spec fn merge_field<X>(from: Option<X>, to: Option<X>, ancestor: Option<X>) -> Option<
    Option<X>,
> {
    if ancestor == from && ancestor == to {
        Some(ancestor)
    } else if ancestor == from {
        Some(to)
    } else if ancestor == to {
        Some(from)
    } else {
        None
    }
}

/// Position and target of the edge called `name`; the last one wins.
pub open spec fn lookup(links: Seq<EdgeModel>, name: Seq<char>) -> Option<(usize, Address)>
    decreases links.len(),
{
    if links.len() == 0 {
        None
    } else if links.last().0 == name {
        Some(((links.len() - 1) as usize, links.last().1))
    } else {
        lookup(links.drop_last(), name)
    }
}

pub open spec fn names(links: Seq<EdgeModel>) -> Seq<Seq<char>> {
    links.map_values(|e: EdgeModel| e.0)
}

/// `s` without repeats, each name where it first occurs.
pub open spec fn dedup(s: Seq<Seq<char>>) -> Seq<Seq<char>>
    decreases s.len(),
{
    if s.len() == 0 {
        s
    } else {
        let d = dedup(s.drop_last());
        if d.contains(s.last()) {
            d
        } else {
            d.push(s.last())
        }
    }
}

/// Every edge name of the three trees: those of "from", then the new ones of
/// "to", then the new ones of the ancestor.
pub open spec fn union_names(f: Seq<EdgeModel>, t: Seq<EdgeModel>, a: Seq<EdgeModel>) -> Seq<
    Seq<char>,
> {
    dedup(names(f) + names(t) + names(a))
}

/// The rule applied to one edge, with (position, target) as the value.
pub open spec fn edge_pick(
    f: Seq<EdgeModel>,
    t: Seq<EdgeModel>,
    a: Seq<EdgeModel>,
    name: Seq<char>,
) -> Option<Option<(usize, Address)>> {
    merge_field(lookup(f, name), lookup(t, name), lookup(a, name))
}

/// An edge that survives a merge: name, retained position, target.
pub type Survivor = (Seq<char>, usize, Address);

/// The surviving edges for `keys` in order, or the first conflicting name.
pub open spec fn survivors(
    f: Seq<EdgeModel>,
    t: Seq<EdgeModel>,
    a: Seq<EdgeModel>,
    keys: Seq<Seq<char>>,
) -> Result<Seq<Survivor>, Seq<char>>
    decreases keys.len(),
{
    if keys.len() == 0 {
        Ok(Seq::empty())
    } else {
        match survivors(f, t, a, keys.drop_last()) {
            Err(n) => Err(n),
            Ok(s) => match edge_pick(f, t, a, keys.last()) {
                None => Err(keys.last()),
                Some(None) => Ok(s),
                Some(Some(l)) => Ok(s.push((keys.last(), l.0, l.1))),
            },
        }
    }
}

/// The survivors at position `p`, in their order in `s`.
pub open spec fn at_position(s: Seq<Survivor>, p: int) -> Seq<EdgeModel>
    decreases s.len(),
{
    if s.len() == 0 {
        Seq::empty()
    } else {
        let r = at_position(s.drop_last(), p);
        if s.last().1 == p {
            r.push((s.last().0, s.last().2))
        } else {
            r
        }
    }
}

/// The survivors with a position below `bound`, by position ascending; equal
/// positions keep their order in `s`.
pub open spec fn in_position_order(s: Seq<Survivor>, bound: nat) -> Seq<EdgeModel>
    decreases bound,
{
    if bound == 0 {
        Seq::empty()
    } else {
        in_position_order(s, (bound - 1) as nat) + at_position(s, bound - 1)
    }
}

pub open spec fn max3(x: nat, y: nat, z: nat) -> nat {
    if x >= y && x >= z {
        x
    } else if y >= z {
        y
    } else {
        z
    }
}

/// The three-way merge of two trees against their ancestor.
pub open spec fn merge_trees(f: TreeModel, t: TreeModel, a: TreeModel) -> Result<
    TreeModel,
    ErrorModel,
> {
    match survivors(f.links, t.links, a.links, union_names(f.links, t.links, a.links)) {
        Err(n) => Err(ErrorModel::MergeConflict(FieldModel::Edge(n))),
        Ok(s) => match merge_field(f.data, t.data, a.data) {
            None => Err(ErrorModel::MergeConflict(FieldModel::Data)),
            Some(d) => Ok(
                TreeModel {
                    data: d,
                    links: in_position_order(s, max3(f.links.len(), t.links.len(), a.links.len())),
                },
            ),
        },
    }
}

proof fn lemma_no_conflict_when_one_side_untouched(
    f: Seq<EdgeModel>,
    t: Seq<EdgeModel>,
    a: Seq<EdgeModel>,
    keys: Seq<Seq<char>>,
)
    requires
        f == a || t == a,
    ensures
        survivors(f, t, a, keys) is Ok,
    decreases keys.len(),
{
    if keys.len() > 0 {
        lemma_no_conflict_when_one_side_untouched(f, t, a, keys.drop_last());
        assert(edge_pick(f, t, a, keys.last()) is Some);
    }
}

/// When one side of a merge still equals the ancestor, the merge never
/// conflicts, and the leaf payload is the other side's: moving an edge on
/// one side alone is taken over like any other change.
pub proof fn lemma_untouched_side_never_conflicts(f: TreeModel, t: TreeModel, a: TreeModel)
    requires
        f == a || t == a,
    ensures
        merge_trees(f, t, a) is Ok,
        f == a ==> merge_trees(f, t, a)->Ok_0.data == t.data,
        t == a ==> merge_trees(f, t, a)->Ok_0.data == f.data,
{
    lemma_no_conflict_when_one_side_untouched(
        f.links,
        t.links,
        a.links,
        union_names(f.links, t.links, a.links),
    );
}

/// The edges of `side` named in `keys`, in the order of `keys`, with their
/// position and target in `side`.
pub open spec fn kept_of(side: Seq<EdgeModel>, keys: Seq<Seq<char>>) -> Seq<Survivor>
    decreases keys.len(),
{
    if keys.len() == 0 {
        Seq::empty()
    } else {
        kept_of(side, keys.drop_last()) + match lookup(side, keys.last()) {
            Some(l) => seq![(keys.last(), l.0, l.1)],
            None => Seq::empty(),
        }
    }
}

proof fn lemma_dedup(s: Seq<Seq<char>>)
    ensures
        dedup(s).no_duplicates(),
        forall|x: Seq<char>| dedup(s).contains(x) <==> s.contains(x),
    decreases s.len(),
{
    if s.len() > 0 {
        let r = s.drop_last();
        let d = dedup(r);
        let l = s.last();
        lemma_dedup(r);
        assert forall|x: Seq<char>| s.contains(x) <==> r.contains(x) || x == l by {
            if s.contains(x) && x != l {
                let i = choose|i: int| 0 <= i < s.len() && s[i] == x;
                assert(r[i] == x);
            }
            if r.contains(x) {
                let i = choose|i: int| 0 <= i < r.len() && r[i] == x;
                assert(s[i] == x);
            }
            if x == l {
                assert(s[s.len() - 1] == x);
            }
        }
        if !d.contains(l) {
            assert forall|x: Seq<char>| d.push(l).contains(x) <==> d.contains(x) || x == l by {
                if d.push(l).contains(x) && x != l {
                    let i = choose|i: int| 0 <= i < d.push(l).len() && d.push(l)[i] == x;
                    assert(d[i] == x);
                }
                if d.contains(x) {
                    let i = choose|i: int| 0 <= i < d.len() && d[i] == x;
                    assert(d.push(l)[i] == x);
                }
                if x == l {
                    assert(d.push(l)[d.len() as int] == x);
                }
            }
        }
    }
}

proof fn lemma_lookup(links: Seq<EdgeModel>, name: Seq<char>)
    requires
        links.len() <= usize::MAX,
    ensures
        match lookup(links, name) {
            Some(l) => 0 <= l.0 < links.len() && links[l.0 as int] == (name, l.1) && forall|j: int|
                l.0 < j < links.len() ==> links[j].0 != name,
            None => forall|j: int| 0 <= j < links.len() ==> links[j].0 != name,
        },
    decreases links.len(),
{
    if links.len() > 0 {
        let r = links.drop_last();
        lemma_lookup(r, name);
        if links.last().0 != name {
            assert forall|j: int| 0 <= j < r.len() implies r[j] == links[j] by {}
        }
    }
}

/// With distinct names, the edge at `i` is found where it stands.
proof fn lemma_lookup_distinct(links: Seq<EdgeModel>, i: int)
    requires
        links.len() <= usize::MAX,
        names(links).no_duplicates(),
        0 <= i < links.len(),
    ensures
        lookup(links, links[i].0) == Some::<(usize, Address)>((i as usize, links[i].1)),
{
    lemma_lookup(links, links[i].0);
    let l = lookup(links, links[i].0)->Some_0;
    assert(names(links)[l.0 as int] == names(links)[i]);
}

proof fn lemma_at_position_concat(x: Seq<Survivor>, y: Seq<Survivor>, p: int)
    ensures
        at_position(x + y, p) == at_position(x, p) + at_position(y, p),
    decreases y.len(),
{
    if y.len() == 0 {
        assert(x + y =~= x);
        assert(at_position(x, p) + at_position(y, p) =~= at_position(x, p));
    } else {
        assert((x + y).drop_last() =~= x + y.drop_last());
        lemma_at_position_concat(x, y.drop_last(), p);
        if y.last().1 == p {
            assert(at_position(x, p) + at_position(y.drop_last(), p).push((y.last().0, y.last().2))
                =~= (at_position(x, p) + at_position(y.drop_last(), p)).push(
                (y.last().0, y.last().2),
            ));
        }
    }
}

proof fn lemma_kept_at_position(side: Seq<EdgeModel>, keys: Seq<Seq<char>>, p: int)
    requires
        side.len() <= usize::MAX,
        names(side).no_duplicates(),
        keys.no_duplicates(),
    ensures
        at_position(kept_of(side, keys), p) == if 0 <= p < side.len() && keys.contains(side[p].0) {
            seq![side[p]]
        } else {
            Seq::<EdgeModel>::empty()
        },
    decreases keys.len(),
{
    if keys.len() == 0 {
        return ;
    }
    let k = keys.last();
    let rest = keys.drop_last();
    assert(rest.no_duplicates()) by {
        assert forall|i: int, j: int| 0 <= i < rest.len() && 0 <= j < rest.len() && i != j implies rest[i]
            != rest[j] by {
            assert(rest[i] == keys[i] && rest[j] == keys[j]);
        }
    }
    lemma_kept_at_position(side, rest, p);
    let tail = match lookup(side, k) {
        Some(l) => seq![(k, l.0, l.1)],
        None => Seq::<Survivor>::empty(),
    };
    lemma_at_position_concat(kept_of(side, rest), tail, p);
    lemma_lookup(side, k);
    if 0 <= p < side.len() {
        lemma_lookup_distinct(side, p);
    }
    assert(at_position(Seq::<Survivor>::empty(), p) =~= Seq::<EdgeModel>::empty());
    if let Some(l) = lookup(side, k) {
        assert(tail.drop_last() =~= Seq::<Survivor>::empty());
        assert(tail.last() == (k, l.0, l.1));
    }
    assert(keys.contains(side[p].0) <==> rest.contains(side[p].0) || k == side[p].0) by {
        if keys.contains(side[p].0) && k != side[p].0 {
            let i = choose|i: int| 0 <= i < keys.len() && keys[i] == side[p].0;
            assert(rest[i] == side[p].0);
        }
        if rest.contains(side[p].0) {
            let i = choose|i: int| 0 <= i < rest.len() && rest[i] == side[p].0;
            assert(keys[i] == side[p].0);
        }
        if k == side[p].0 {
            assert(keys[keys.len() - 1] == side[p].0);
        }
    }
    if 0 <= p < side.len() && rest.contains(side[p].0) && k == side[p].0 {
        let i = choose|i: int| 0 <= i < rest.len() && rest[i] == side[p].0;
        assert(keys[i] == keys[keys.len() - 1]);
    }
    assert(Seq::<EdgeModel>::empty() + Seq::<EdgeModel>::empty() =~= Seq::<EdgeModel>::empty());
    assert(Seq::<EdgeModel>::empty() + seq![side[p]] =~= seq![side[p]]);
    assert(seq![side[p]] + Seq::<EdgeModel>::empty() =~= seq![side[p]]);
}

proof fn lemma_kept_in_order(side: Seq<EdgeModel>, keys: Seq<Seq<char>>, bound: nat)
    requires
        side.len() <= usize::MAX,
        names(side).no_duplicates(),
        keys.no_duplicates(),
        forall|i: int| 0 <= i < side.len() ==> keys.contains(#[trigger] side[i].0),
    ensures
        in_position_order(kept_of(side, keys), bound) == side.take(
            if bound <= side.len() { bound as int } else { side.len() as int },
        ),
    decreases bound,
{
    if bound > 0 {
        lemma_kept_in_order(side, keys, (bound - 1) as nat);
        lemma_kept_at_position(side, keys, bound - 1);
        if bound <= side.len() {
            assert(side.take(bound - 1) + seq![side[bound - 1]] =~= side.take(bound as int));
        } else {
            assert(side.take(side.len() as int) + Seq::<EdgeModel>::empty() =~= side.take(
                side.len() as int,
            ));
        }
    } else {
        assert(side.take(0) =~= Seq::<EdgeModel>::empty());
    }
}

proof fn lemma_kept_when_untouched(
    f: Seq<EdgeModel>,
    t: Seq<EdgeModel>,
    a: Seq<EdgeModel>,
    keys: Seq<Seq<char>>,
)
    requires
        f == a || t == a,
    ensures
        survivors(f, t, a, keys) == Ok::<Seq<Survivor>, Seq<char>>(
            kept_of(if f == a { t } else { f }, keys),
        ),
    decreases keys.len(),
{
    if keys.len() > 0 {
        lemma_kept_when_untouched(f, t, a, keys.drop_last());
        let side = if f == a { t } else { f };
        let s0 = kept_of(side, keys.drop_last());
        match lookup(side, keys.last()) {
            Some(l) => {
                assert(s0 + seq![(keys.last(), l.0, l.1)] =~= s0.push((keys.last(), l.0, l.1)));
            },
            None => {
                assert(s0 + Seq::<Survivor>::empty() =~= s0);
            },
        }
    }
}

/// When one side of a merge still equals the ancestor and the edge names of
/// the other side are distinct, the merge gives exactly that other side:
/// edges moved on one side alone come out in their new order.
pub proof fn lemma_untouched_side_gives_the_other(f: TreeModel, t: TreeModel, a: TreeModel)
    requires
        f == a || t == a,
        names(if f == a { t.links } else { f.links }).no_duplicates(),
        (if f == a { t.links } else { f.links }).len() <= usize::MAX,
    ensures
        merge_trees(f, t, a) == Ok::<TreeModel, ErrorModel>(if f == a { t } else { f }),
{
    let side = if f == a { t } else { f };
    let all = names(f.links) + names(t.links) + names(a.links);
    let keys = union_names(f.links, t.links, a.links);
    lemma_dedup(all);
    lemma_kept_when_untouched(f.links, t.links, a.links, keys);
    assert forall|i: int| 0 <= i < side.links.len() implies keys.contains(
        #[trigger] side.links[i].0,
    ) by {
        let x = side.links[i].0;
        if f == a {
            let j = names(f.links).len() + i;
            assert(names(t.links)[i] == x);
            assert(all[j] == x);
            assert(all.contains(x));
        } else {
            assert(names(f.links)[i] == x);
            assert(all[i] == x);
            assert(all.contains(x));
        }
    }
    let bound = max3(f.links.len(), t.links.len(), a.links.len());
    lemma_kept_in_order(side.links, keys, bound);
    assert(side.links.take(side.links.len() as int) =~= side.links);
    let m = merge_trees(f, t, a)->Ok_0;
    assert(m.links == side.links);
    assert(m.data == side.data);
}

pub open spec fn survivors_view(s: Seq<(String, usize, Address)>) -> Seq<Survivor> {
    s.map_values(|x: (String, usize, Address)| (x.0@, x.1, x.2))
}

proof fn lemma_conflict_sticks(
    f: Seq<EdgeModel>,
    t: Seq<EdgeModel>,
    a: Seq<EdgeModel>,
    keys: Seq<Seq<char>>,
    i: int,
)
    requires
        0 <= i <= keys.len(),
        survivors(f, t, a, keys.take(i)) is Err,
    ensures
        survivors(f, t, a, keys) == survivors(f, t, a, keys.take(i)),
    decreases keys.len() - i,
{
    if i < keys.len() {
        assert(keys.take(i + 1).drop_last() =~= keys.take(i));
        lemma_conflict_sticks(f, t, a, keys, i + 1);
    } else {
        assert(keys.take(i) =~= keys);
    }
}

fn contains_name(keys: &Vec<String>, n: &String) -> (r: bool)
    ensures
        r == strings_view(keys@).contains(n@),
{
    let mut i: usize = 0;
    while i < keys.len()
        invariant
            i <= keys@.len(),
            forall|j: int| 0 <= j < i ==> keys@[j]@ != n@,
        decreases keys@.len() - i,
    {
        if keys[i] == *n {
            proof {
                assert(strings_view(keys@)[i as int] == n@);
            }
            return true;
        }
        i = i + 1;
    }
    proof {
        if strings_view(keys@).contains(n@) {
            let j = choose|j: int| 0 <= j < keys@.len() && strings_view(keys@)[j] == n@;
            assert(keys@[j]@ == n@);
        }
    }
    false
}

/// Appends the names of `links` not yet in `keys`.
fn add_names(keys: &mut Vec<String>, links: &Vec<NamedEdge>, Ghost(prefix): Ghost<Seq<Seq<char>>>)
    requires
        strings_view(old(keys)@) == dedup(prefix),
    ensures
        strings_view(final(keys)@) == dedup(prefix + names(edges_view(links@))),
{
    let ghost nm = names(edges_view(links@));
    let mut i: usize = 0;
    while i < links.len()
        invariant
            i <= links@.len(),
            nm == names(edges_view(links@)),
            strings_view(keys@) == dedup(prefix + nm.take(i as int)),
        decreases links@.len() - i,
    {
        let ghost before = keys@;
        let ghost s = prefix + nm.take(i as int + 1);
        proof {
            assert(s.drop_last() =~= prefix + nm.take(i as int));
            assert(s.last() == links@[i as int].name@);
        }
        if !contains_name(keys, &links[i].name) {
            keys.push(links[i].name.clone());
            proof {
                assert(strings_view(keys@) =~= strings_view(before).push(links@[i as int].name@));
            }
        }
        i = i + 1;
    }
    proof {
        assert(nm.take(links@.len() as int) =~= nm);
    }
}

/// Position and target of the last edge of `links` called `name`.
fn lookup_edge(links: &Vec<NamedEdge>, name: &String) -> (r: Option<(usize, Address)>)
    ensures
        r == lookup(edges_view(links@), name@),
{
    let ghost ev = edges_view(links@);
    let mut found: Option<(usize, Address)> = None;
    let mut i: usize = 0;
    while i < links.len()
        invariant
            i <= links@.len(),
            ev == edges_view(links@),
            found == lookup(ev.take(i as int), name@),
        decreases links@.len() - i,
    {
        proof {
            assert(ev.take(i as int + 1).drop_last() =~= ev.take(i as int));
            assert(ev.take(i as int + 1).last() == ev[i as int]);
        }
        if links[i].name == *name {
            found = Some((i, links[i].target));
        }
        i = i + 1;
    }
    proof {
        assert(ev.take(links@.len() as int) =~= ev);
    }
    found
}

/// The rule of `merge_field`, with the two comparisons against the
/// ancestor already made.
pub open spec fn pick_side<X>(
    from: Option<X>,
    to: Option<X>,
    ancestor: Option<X>,
    from_unchanged: bool,
    to_unchanged: bool,
) -> Option<Option<X>> {
    if from_unchanged && to_unchanged {
        Some(ancestor)
    } else if from_unchanged {
        Some(to)
    } else if to_unchanged {
        Some(from)
    } else {
        None
    }
}

/// Which value a field keeps in a merge: the ancestor's when neither side
/// changed it, the changed side's when only one did, `None` for a conflict.
pub fn get_merge_result<T>(
    maybe_from: Option<T>,
    maybe_to: Option<T>,
    maybe_ancestor: Option<T>,
    from_unchanged: bool,
    to_unchanged: bool,
) -> (r: Option<Option<T>>)
    ensures
        r == pick_side(maybe_from, maybe_to, maybe_ancestor, from_unchanged, to_unchanged),
{
    if from_unchanged && to_unchanged {
        Some(maybe_ancestor)
    } else if from_unchanged {
        Some(maybe_to)
    } else if to_unchanged {
        Some(maybe_from)
    } else {
        None
    }
}

fn same_link(x: Option<(usize, Address)>, y: Option<(usize, Address)>) -> (r: bool)
    ensures
        r == (x == y),
{
    match (x, y) {
        (Some((p, a)), Some((q, b))) => p == q && a.id == b.id,
        (None, None) => true,
        _ => false,
    }
}

/// Edges of `s` ordered by position below `bound`, ties in the order of `s`.
fn order_by_position(s: &Vec<(String, usize, Address)>, bound: usize) -> (r: Vec<NamedEdge>)
    ensures
        edges_view(r@) == in_position_order(survivors_view(s@), bound as nat),
{
    let ghost sv = survivors_view(s@);
    let mut out: Vec<NamedEdge> = Vec::new();
    let mut p: usize = 0;
    while p < bound
        invariant
            p <= bound,
            sv == survivors_view(s@),
            edges_view(out@) == in_position_order(sv, p as nat),
        decreases bound - p,
    {
        let ghost start = edges_view(out@);
        let mut k: usize = 0;
        while k < s.len()
            invariant
                k <= s@.len(),
                sv == survivors_view(s@),
                start == in_position_order(sv, p as nat),
                edges_view(out@) == start + at_position(sv.take(k as int), p as int),
            decreases s@.len() - k,
        {
            let ghost before = edges_view(out@);
            proof {
                assert(sv.take(k as int + 1).drop_last() =~= sv.take(k as int));
                assert(sv.take(k as int + 1).last() == sv[k as int]);
            }
            if s[k].1 == p {
                out.push(NamedEdge { name: s[k].0.clone(), target: s[k].2 });
                proof {
                    assert(edges_view(out@) =~= before.push((s@[k as int].0@, s@[k as int].2)));
                    assert(edges_view(out@) =~= start + at_position(
                        sv.take(k as int + 1),
                        p as int,
                    ));
                }
            }
            k = k + 1;
        }
        proof {
            assert(sv.take(s@.len() as int) =~= sv);
        }
        p = p + 1;
    }
    out
}

/// Three-way merges `from` and `to` against `ancestor`. Edges are compared
/// by the pair (position, target), so an edge that only moved counts as
/// changed. The surviving edges come ordered by their retained position.
pub fn build_merge_content(from: &Tree, to: &Tree, ancestor: &Tree) -> (r: Result<Tree, VcError>)
    ensures
        match r {
            Ok(t) => merge_trees(from@, to@, ancestor@) == Ok::<TreeModel, ErrorModel>(t@),
            Err(e) => merge_trees(from@, to@, ancestor@) == Err::<TreeModel, ErrorModel>(e@),
        },
{
    let ghost f = edges_view(from.links@);
    let ghost t = edges_view(to.links@);
    let ghost a = edges_view(ancestor.links@);

    let mut keys: Vec<String> = Vec::new();
    proof {
        assert(strings_view(keys@) =~= dedup(Seq::<Seq<char>>::empty()));
    }
    add_names(&mut keys, &from.links, Ghost(Seq::empty()));
    proof {
        assert(Seq::<Seq<char>>::empty() + names(f) =~= names(f));
    }
    add_names(&mut keys, &to.links, Ghost(names(f)));
    add_names(&mut keys, &ancestor.links, Ghost(names(f) + names(t)));
    let ghost ks = strings_view(keys@);
    proof {
        assert(ks == union_names(f, t, a));
    }

    let mut kept: Vec<(String, usize, Address)> = Vec::new();
    let mut i: usize = 0;
    proof {
        assert(ks.take(0) =~= Seq::<Seq<char>>::empty());
        assert(survivors_view(kept@) =~= Seq::<Survivor>::empty());
    }
    while i < keys.len()
        invariant
            i <= keys@.len(),
            ks == strings_view(keys@),
            ks == union_names(f, t, a),
            f == edges_view(from.links@),
            t == edges_view(to.links@),
            a == edges_view(ancestor.links@),
            survivors(f, t, a, ks.take(i as int)) == Ok::<Seq<Survivor>, Seq<char>>(
                survivors_view(kept@),
            ),
        decreases keys@.len() - i,
    {
        let key = &keys[i];
        proof {
            assert(ks.take(i as int + 1).drop_last() =~= ks.take(i as int));
            assert(ks.take(i as int + 1).last() == key@);
        }
        let lf = lookup_edge(&from.links, key);
        let lt = lookup_edge(&to.links, key);
        let la = lookup_edge(&ancestor.links, key);
        let from_unchanged = same_link(la, lf);
        let to_unchanged = same_link(la, lt);
        let picked = if let Some(p) = get_merge_result(lf, lt, la, from_unchanged, to_unchanged) {
            p
        } else {
            proof {
                assert(edge_pick(f, t, a, key@) is None);
                assert(survivors(f, t, a, ks.take(i as int + 1)) == Err::<Seq<Survivor>, Seq<char>>(
                    key@,
                ));
                lemma_conflict_sticks(f, t, a, ks, i as int + 1);
                assert(survivors(f, t, a, ks) == Err::<Seq<Survivor>, Seq<char>>(key@));
            }
            return Err(VcError::MergeConflict(MergeField::Edge(key.clone())));
        };
        if let Some((pos, target)) = picked {
            let ghost before = kept@;
            kept.push((key.clone(), pos, target));
            proof {
                assert(survivors_view(kept@) =~= survivors_view(before).push((key@, pos, target)));
            }
        }
        i = i + 1;
    }
    proof {
        assert(ks.take(keys@.len() as int) =~= ks);
    }

    let from_unchanged = opt_bytes_eq(&ancestor.data, &from.data);
    let to_unchanged = opt_bytes_eq(&ancestor.data, &to.data);
    let data = match get_merge_result(
        copy_opt_bytes(&from.data),
        copy_opt_bytes(&to.data),
        copy_opt_bytes(&ancestor.data),
        from_unchanged,
        to_unchanged,
    ) {
        Some(d) => d,
        None => {
            return Err(VcError::MergeConflict(MergeField::Data));
        },
    };

    let mut bound = from.links.len();
    if to.links.len() > bound {
        bound = to.links.len();
    }
    if ancestor.links.len() > bound {
        bound = ancestor.links.len();
    }
    proof {
        assert(bound as nat == max3(f.len(), t.len(), a.len()));
    }
    let links = order_by_position(&kept, bound);
    Ok(Tree::new(data, links))
}

} // verus!

verus! {

/// Both are commits with different contents: only then is an ancestor
/// searched for.
pub open spec fn needs_search(s: Seq<EntryModel>, from: Address, to: Address) -> bool {
    is_commit_at(s, from) && is_commit_at(s, to) && commit_at(s, from).content != commit_at(
        s,
        to,
    ).content
}

/// What merging the contents of two commits amounts to, given the outcome
/// `anc` of the ancestor search.
pub enum ContentMerge {
    Reuse(Address),
    Store(TreeModel),
    Fail(ErrorModel),
}

pub open spec fn content_merge(
    s: Seq<EntryModel>,
    from: Address,
    to: Address,
    anc: Result<Address, ErrorModel>,
) -> ContentMerge {
    if !is_commit_at(s, from) {
        ContentMerge::Fail(ErrorModel::NotFound(from))
    } else if !is_commit_at(s, to) {
        ContentMerge::Fail(ErrorModel::NotFound(to))
    } else {
        let fc = commit_at(s, from).content;
        let tc = commit_at(s, to).content;
        if fc == tc {
            ContentMerge::Reuse(tc)
        } else {
            match anc {
                Err(e) => ContentMerge::Fail(e),
                Ok(x) => if !is_commit_at(s, x) {
                    ContentMerge::Fail(ErrorModel::NotFound(x))
                } else {
                    let ac = commit_at(s, x).content;
                    if !is_content_at(s, ac) {
                        ContentMerge::Fail(ErrorModel::NotFound(ac))
                    } else if !is_content_at(s, fc) {
                        ContentMerge::Fail(ErrorModel::NotFound(fc))
                    } else if !is_content_at(s, tc) {
                        ContentMerge::Fail(ErrorModel::NotFound(tc))
                    } else {
                        match (content_at(s, fc), content_at(s, tc), content_at(s, ac)) {
                            (ContentModel::Tree(f), ContentModel::Tree(t), ContentModel::Tree(a)) => {
                                match merge_trees(f, t, a) {
                                    Ok(m) => ContentMerge::Store(m),
                                    Err(e) => ContentMerge::Fail(e),
                                }
                            },
                            _ => ContentMerge::Fail(ErrorModel::UnsupportedMergeShape),
                        }
                    }
                },
            }
        }
    }
}

/// The merge `m` was carried out on store `s`, giving `r` and leaving `t`.
pub open spec fn merged_as(
    s: Seq<EntryModel>,
    m: ContentMerge,
    r: Result<Address, ErrorModel>,
    t: Seq<EntryModel>,
) -> bool {
    match m {
        ContentMerge::Reuse(a) => r == Ok::<Address, ErrorModel>(a) && t == s,
        ContentMerge::Store(tree) => {
            let v = EntryModel::Content(ContentModel::Tree(tree));
            &&& t == with_value(s, v)
            &&& r is Ok
            &&& placed_at(t, v, r->Ok_0)
        },
        ContentMerge::Fail(e) => r == Err::<Address, ErrorModel>(e) && t == s,
    }
}

/// The merge of the contents of `from` and `to`, with `anc` as the outcome
/// of the ancestor search when one is made, gave `r` and left the store `t`.
pub open spec fn contents_merged_with(
    s: Seq<EntryModel>,
    from: Address,
    to: Address,
    anc: Result<Address, ErrorModel>,
    r: Result<Address, ErrorModel>,
    t: Seq<EntryModel>,
) -> bool {
    &&& (needs_search(s, from, to) ==> search_finds(s, from, to, anc))
    &&& merged_as(s, content_merge(s, from, to, anc), r, t)
}

pub open spec fn contents_merged(
    s: Seq<EntryModel>,
    from: Address,
    to: Address,
    r: Result<Address, ErrorModel>,
    t: Seq<EntryModel>,
) -> bool {
    exists|anc: Result<Address, ErrorModel>| contents_merged_with(s, from, to, anc, r, t)
}

/// Merges the contents of the commits at the two addresses against their
/// common ancestor, stores the result and returns its address. Commits with
/// the same content give that content without a search. Otherwise all three
/// contents must be trees: a blob on any side is `UnsupportedMergeShape`.
pub fn merge_commits_contents(
    store: &mut ContentStore,
    from_commit_address: Address,
    to_commit_address: Address,
) -> (r: Result<Address, VcError>)
    requires
        old(store).wf(),
    ensures
        final(store).wf(),
        contents_merged(
            old(store)@,
            from_commit_address,
            to_commit_address,
            result_view(r),
            final(store)@,
        ),
{
    let ghost s = store@;
    let ghost (fa, ta) = (from_commit_address, to_commit_address);
    let ghost none = Err::<Address, ErrorModel>(ErrorModel::NoCommonAncestor);
    let from_content = match store.get_commit(from_commit_address) {
        Ok(c) => *c.get_content_address(),
        Err(e) => {
            proof {
                assert(contents_merged_with(s, fa, ta, none, result_view(Err(e)), s));
            }
            return Err(e);
        },
    };
    let to_content = match store.get_commit(to_commit_address) {
        Ok(c) => *c.get_content_address(),
        Err(e) => {
            proof {
                assert(contents_merged_with(s, fa, ta, none, result_view(Err(e)), s));
            }
            return Err(e);
        },
    };
    if from_content.id == to_content.id {
        proof {
            assert(contents_merged_with(s, fa, ta, none, result_view(Ok(to_content)), s));
        }
        return Ok(to_content);
    }
    let found = find_most_recent_common_ancestor(store, from_commit_address, to_commit_address);
    let ghost anc = result_view(found);
    let merged = match found {
        Err(e) => {
            proof {
                assert(contents_merged_with(s, fa, ta, anc, result_view(Err(e)), s));
            }
            return Err(e);
        },
        Ok(ancestor_commit_address) => {
            let ancestor = match store.get_commit(ancestor_commit_address) {
                Ok(c) => *c.get_content_address(),
                Err(e) => {
                    proof {
                        assert(contents_merged_with(s, fa, ta, anc, result_view(Err(e)), s));
                    }
                    return Err(e);
                },
            };
            let ancestor_content = match store.get_content(ancestor) {
                Ok(c) => c,
                Err(e) => {
                    proof {
                        assert(contents_merged_with(s, fa, ta, anc, result_view(Err(e)), s));
                    }
                    return Err(e);
                },
            };
            let from_tree = match store.get_content(from_content) {
                Ok(c) => c,
                Err(e) => {
                    proof {
                        assert(contents_merged_with(s, fa, ta, anc, result_view(Err(e)), s));
                    }
                    return Err(e);
                },
            };
            let to_tree = match store.get_content(to_content) {
                Ok(c) => c,
                Err(e) => {
                    proof {
                        assert(contents_merged_with(s, fa, ta, anc, result_view(Err(e)), s));
                    }
                    return Err(e);
                },
            };
            match (from_tree, to_tree, ancestor_content) {
                (
                    CommitContent::ContentTree(f),
                    CommitContent::ContentTree(t),
                    CommitContent::ContentTree(a),
                ) => match build_merge_content(f, t, a) {
                    Ok(m) => m,
                    Err(e) => {
                        proof {
                            assert(contents_merged_with(s, fa, ta, anc, result_view(Err(e)), s));
                        }
                        return Err(e);
                    },
                },
                _ => {
                    let e = VcError::UnsupportedMergeShape;
                    proof {
                        assert(contents_merged_with(s, fa, ta, anc, result_view(Err(e)), s));
                    }
                    return Err(e);
                },
            }
        },
    };
    let ghost merged_model = merged@;
    let r = store.put(Entry::ContentEntry(CommitContent::ContentTree(merged)));
    proof {
        assert(content_merge(s, from_commit_address, to_commit_address, anc) == ContentMerge::Store(
            merged_model,
        ));
        assert(contents_merged_with(s, fa, ta, anc, result_view(Ok(r)), store@));
    }
    Ok(r)
}

} // verus!
