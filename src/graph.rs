use crate::error::{ConversionError, ErrorModel};
use crate::unit::{canonical_aliases, listing_line, str_views, Unit};
use vstd::prelude::*;
use vstd::string::StringExecFns;

verus! {

/// Whether `al[i]` is taken already: by the alias index, or by an earlier
/// entry of `al` itself.
pub open spec fn alias_taken(index: Map<Seq<char>, nat>, al: Seq<Seq<char>>, i: int) -> bool {
    index.contains_key(al[i]) || al.take(i).contains(al[i])
}

/// Whether some entry of `al` is taken.
pub open spec fn some_alias_taken(index: Map<Seq<char>, nat>, al: Seq<Seq<char>>) -> bool {
    exists|i: int| 0 <= i < al.len() && #[trigger] alias_taken(index, al, i)
}

/// The position of the first entry of `al` that is taken.
pub open spec fn first_taken(index: Map<Seq<char>, nat>, al: Seq<Seq<char>>) -> int {
    choose|i: int|
        0 <= i < al.len() && alias_taken(index, al, i) && forall|j: int|
            0 <= j < i ==> !#[trigger] alias_taken(index, al, j)
}

/// When `al[i]` is taken, some entry at or before `i` is the first taken.
proof fn lemma_first_taken_exists(index: Map<Seq<char>, nat>, al: Seq<Seq<char>>, i: int)
    requires
        0 <= i < al.len(),
        alias_taken(index, al, i),
    ensures
        0 <= first_taken(index, al) <= i,
        alias_taken(index, al, first_taken(index, al)),
        forall|j: int| 0 <= j < first_taken(index, al) ==> !#[trigger] alias_taken(index, al, j),
    decreases i,
{
    if exists|j: int| 0 <= j < i && #[trigger] alias_taken(index, al, j) {
        let j = choose|j: int| 0 <= j < i && #[trigger] alias_taken(index, al, j);
        lemma_first_taken_exists(index, al, j);
    } else {
        assert(0 <= i < al.len() && alias_taken(index, al, i) && forall|j: int|
            0 <= j < i ==> !#[trigger] alias_taken(index, al, j));
        let f = first_taken(index, al);
        if f > i {
            assert(!alias_taken(index, al, i));
        }
    }
}

/// Whether `al[i]` equals one of the entries before it.
fn repeats_earlier(al: &[String], i: usize) -> (r: bool)
    requires
        i < al@.len(),
    ensures
        r == crate::unit::string_views(al@).take(i as int).contains(al@[i as int]@),
{
    let ghost views = crate::unit::string_views(al@);
    let mut j: usize = 0;
    while j < i
        invariant
            i < al@.len(),
            views == crate::unit::string_views(al@),
            j <= i,
            forall|h: int| 0 <= h < j ==> #[trigger] views[h] != views[i as int],
        decreases i - j,
    {
        if al[j] == al[i] {
            proof {
                assert(views.take(i as int)[j as int] == views[i as int]);
            }
            return true;
        }
        j = j + 1;
    }
    proof {
        if views.take(i as int).contains(views[i as int]) {
            let h = choose|h: int| 0 <= h < i && views.take(i as int)[h] == views[i as int];
            assert(views[h] == views[i as int]);
        }
    }
    false
}

/// Which of the three parts of a conversion factor `(scale, offset)` hold
/// their neutral value. The factor itself stays with the caller.
#[derive(Clone, Copy, Debug)]
pub struct FactorShape {
    pub scale_is_zero: bool,
    pub scale_is_one: bool,
    pub offset_is_zero: bool,
}

impl FactorShape {
    /// The error a factor of this shape is refused with, if any: a zero
    /// scale, or a scale other than one together with a non-zero offset.
    pub open spec fn spec_rejection(self) -> Option<ErrorModel> {
        if self.scale_is_zero {
            Some(ErrorModel::ConversionRateZero)
        } else if !self.scale_is_one && !self.offset_is_zero {
            Some(ErrorModel::ConversionRateBothValues)
        } else {
            None
        }
    }

    /// Checks that a factor of this shape may label an edge.
    pub fn check(self) -> (r: Result<(), ConversionError>)
        ensures
            r is Err <==> self.spec_rejection() is Some,
            r is Err ==> r->Err_0@ == self.spec_rejection()->Some_0,
    {
        if self.scale_is_zero {
            Err(ConversionError::ConversionRateZero)
        } else if !self.scale_is_one && !self.offset_is_zero {
            Err(ConversionError::ConversionRateBothValues)
        } else {
            Ok(())
        }
    }
}

/// `nodes` and `keys` form a walk along the edges of `links`: each step
/// `nodes[i] -> nodes[i + 1]` is an edge labelled `keys[i]`.
pub open spec fn is_walk(links: Map<(nat, nat), nat>, nodes: Seq<nat>, keys: Seq<nat>) -> bool {
    &&& nodes.len() == keys.len() + 1
    &&& forall|i: int| 0 <= i < keys.len() ==> #[trigger] is_step(links, nodes, keys, i)
}

/// Step `i` of a walk is the edge `nodes[i] -> nodes[i + 1]`, labelled `keys[i]`.
pub open spec fn is_step(links: Map<(nat, nat), nat>, nodes: Seq<nat>, keys: Seq<nat>, i: int) -> bool {
    &&& links.contains_key((nodes[i], nodes[i + 1]))
    &&& links[(nodes[i], nodes[i + 1])] == keys[i]
}

/// The labels `keys`, in order, lead along a walk from `from` to `to`.
pub open spec fn connects(links: Map<(nat, nat), nat>, from: nat, to: nat, keys: Seq<nat>) -> bool {
    exists|nodes: Seq<nat>| #[trigger]
        is_walk(links, nodes, keys) && nodes[0] == from && nodes.last() == to
}

/// Some walk leads from `from` to `to`.
pub open spec fn reachable(links: Map<(nat, nat), nat>, from: nat, to: nat) -> bool {
    exists|keys: Seq<nat>| #[trigger] connects(links, from, to, keys)
}

/// The factor keys of a path, as mathematical integers.
pub open spec fn key_views(keys: Seq<usize>) -> Seq<nat> {
    keys.map_values(|k: usize| k as nat)
}

/// A walk extended by one edge is a walk.
proof fn lemma_walk_push(links: Map<(nat, nat), nat>, nodes: Seq<nat>, keys: Seq<nat>, w: nat, key: nat)
    requires
        is_walk(links, nodes, keys),
        links.contains_key((nodes.last(), w)),
        links[(nodes.last(), w)] == key,
    ensures
        is_walk(links, nodes.push(w), keys.push(key)),
{
    let n2 = nodes.push(w);
    let k2 = keys.push(key);
    assert forall|i: int| 0 <= i < k2.len() implies #[trigger] is_step(links, n2, k2, i) by {
        if i < keys.len() {
            assert(is_step(links, nodes, keys, i));
            assert(n2[i] == nodes[i] && n2[i + 1] == nodes[i + 1] && k2[i] == keys[i]);
        } else {
            assert(n2[i] == nodes.last() && n2[i + 1] == w && k2[i] == key);
        }
    }
}

/// Every walk that starts in a set of units closed under the edges stays in it.
proof fn lemma_closed_walk(links: Map<(nat, nat), nat>, inside: Seq<bool>, nodes: Seq<nat>, keys: Seq<nat>)
    requires
        is_walk(links, nodes, keys),
        nodes[0] < inside.len(),
        inside[nodes[0] as int],
        forall|p: (nat, nat)| #[trigger]
            links.contains_key(p) && p.0 < inside.len() && inside[p.0 as int] ==> p.1 < inside.len()
                && inside[p.1 as int],
    ensures
        nodes.last() < inside.len(),
        inside[nodes.last() as int],
    decreases keys.len(),
{
    if keys.len() > 0 {
        lemma_walk_drop_last(links, nodes, keys);
        lemma_closed_walk(links, inside, nodes.drop_last(), keys.drop_last());
    }
}

/// A list of distinct numbers below `n` has at most `n` entries.
proof fn lemma_distinct_below(q: Seq<usize>, n: nat)
    requires
        q.no_duplicates(),
        forall|i: int| 0 <= i < q.len() ==> #[trigger] q[i] < n,
    ensures
        q.len() <= n,
{
    let f = |x: usize| x as int;
    let qi = q.map_values(f);
    assert(vstd::relations::injective(f));
    q.lemma_no_duplicates_injective(f);
    qi.unique_seq_to_set();
    vstd::set_lib::lemma_int_range(0, n as int);
    assert(qi.to_set().subset_of(vstd::set_lib::set_int_range(0, n as int))) by {
        assert forall|x: int| qi.to_set().contains(x) implies vstd::set_lib::set_int_range(
            0,
            n as int,
        ).contains(x) by {
            assert(qi.contains(x));
            let i = choose|i: int| 0 <= i < qi.len() && qi[i] == x;
            assert(q[i] < n);
        }
    }
    vstd::set_lib::lemma_len_subset(qi.to_set(), vstd::set_lib::set_int_range(0, n as int));
}

/// The listing lines of the units that are not intermediate, in order.
pub open spec fn listing(units: Seq<Unit>) -> Seq<Seq<char>>
    decreases units.len(),
{
    if units.len() == 0 {
        Seq::empty()
    } else {
        let rest = listing(units.drop_last());
        let u = units.last();
        if u.spec_intermediate() {
            rest
        } else {
            rest.push(listing_line(u.spec_name(), u.spec_aliases()))
        }
    }
}

/// Every line of a listing is the line of a unit that is not intermediate,
/// so no intermediate unit is listed.
pub proof fn lemma_listing_hides_intermediate(units: Seq<Unit>, i: int)
    requires
        0 <= i < listing(units).len(),
    ensures
        exists|k: int|
            0 <= k < units.len() && !units[k].spec_intermediate() && listing(units)[i] == listing_line(
                #[trigger] units[k].spec_name(),
                units[k].spec_aliases(),
            ),
    decreases units.len(),
{
    let rest = listing(units.drop_last());
    let u = units.last();
    if i < rest.len() {
        lemma_listing_hides_intermediate(units.drop_last(), i);
        let k = choose|k: int|
            0 <= k < units.drop_last().len() && !units.drop_last()[k].spec_intermediate() && rest[i]
                == listing_line(
                #[trigger] units.drop_last()[k].spec_name(),
                units.drop_last()[k].spec_aliases(),
            );
        assert(units[k] == units.drop_last()[k]);
    } else {
        let k = units.len() - 1;
        assert(units[k] == u);
    }
}

/// The state of a breadth-first search: which units were reached, from
/// where, the queue with its head, and the walk that reached each unit.
struct Search {
    visited: Vec<bool>,
    parent: Vec<(usize, usize)>,
    queue: Vec<usize>,
    head: usize,
    walks: Ghost<Map<nat, (Seq<nat>, Seq<nat>)>>,
}

impl Search {
    /// The number of edges on the walk that reached `v`.
    spec fn depth(&self, v: usize) -> nat {
        self.walks@[v as nat].1.len()
    }

    spec fn inv(&self, links: Map<(nat, nat), nat>, n: nat, src: usize) -> bool {
        let q = self.queue@;
        let vis = self.visited@;
        &&& vis.len() == n
        &&& self.parent@.len() == n
        &&& src < n
        &&& self.head <= q.len()
        &&& q.no_duplicates()
        &&& forall|i: int| 0 <= i < q.len() ==> #[trigger] q[i] < n && vis[q[i] as int]
        &&& forall|v: int| 0 <= v < n && #[trigger] vis[v] ==> q.contains(v as usize)
        &&& vis[src as int]
        &&& self.walks@.contains_key(src as nat)
        &&& self.walks@[src as nat] == (seq![src as nat], Seq::<nat>::empty())
        &&& forall|v: int|
            0 <= v < n && #[trigger] vis[v] ==> {
                &&& self.walks@.contains_key(v as nat)
                &&& is_walk(links, self.walks@[v as nat].0, self.walks@[v as nat].1)
                &&& self.walks@[v as nat].0[0] == src
                &&& self.walks@[v as nat].0.last() == v
            }
        &&& forall|v: int|
            0 <= v < n && #[trigger] vis[v] && v != src ==> {
                let p = self.parent@[v].0 as nat;
                &&& p < n
                &&& vis[p as int]
                &&& self.walks@[v as nat].1 == self.walks@[p].1.push(self.parent@[v].1 as nat)
            }
        &&& forall|i: int, j: int|
            0 <= i <= j < q.len() ==> self.depth(#[trigger] q[i]) <= self.depth(#[trigger] q[j])
        &&& forall|i: int|
            self.head <= i < q.len() ==> self.depth(#[trigger] q[i]) <= self.depth(q[self.head as int])
                + 1
        &&& forall|nodes: Seq<nat>, keys: Seq<nat>| #[trigger]
            is_walk(links, nodes, keys) && nodes[0] == src && nodes.last() < n && vis[nodes.last() as int]
                ==> self.depth(nodes.last() as usize) <= keys.len()
    }

    /// Every neighbour of the first `upto` queued units has been reached.
    spec fn closed_upto(&self, adj: Seq<Vec<(usize, usize)>>, upto: int) -> bool {
        forall|i: int, j: int|
            0 <= i < upto && 0 <= j < adj[self.queue@[i] as int]@.len() ==> self.visited@[(
            #[trigger] adj[self.queue@[i] as int]@[j]).0 as int]
    }
}

/// The walk without its last step is a walk.
proof fn lemma_walk_drop_last(links: Map<(nat, nat), nat>, nodes: Seq<nat>, keys: Seq<nat>)
    requires
        is_walk(links, nodes, keys),
        keys.len() > 0,
    ensures
        is_walk(links, nodes.drop_last(), keys.drop_last()),
        nodes.drop_last()[0] == nodes[0],
        nodes.drop_last().last() == nodes[keys.len() - 1],
        is_step(links, nodes, keys, keys.len() - 1),
{
    let n1 = nodes.drop_last();
    let k1 = keys.drop_last();
    assert forall|i: int| 0 <= i < k1.len() implies #[trigger] is_step(links, n1, k1, i) by {
        assert(is_step(links, nodes, keys, i));
        assert(n1[i] == nodes[i] && n1[i + 1] == nodes[i + 1] && k1[i] == keys[i]);
    }
    assert(is_step(links, nodes, keys, keys.len() - 1));
}

/// Follows the parents from `dst` back to `src`: the factor keys of the
/// walk that reached `dst`, in path order.
fn trace_back(st: &Search, links: Ghost<Map<(nat, nat), nat>>, n: Ghost<nat>, src: usize, dst: usize) -> (r: Vec<usize>)
    requires
        st.inv(links@, n@, src),
        dst < n@,
        st.visited@[dst as int],
    ensures
        connects(links@, src as nat, dst as nat, key_views(r@)),
        r@.len() == st.depth(dst),
{
    let ghost links = links@;
    let ghost n = n@;
    let ghost walks = st.walks@;
    let ghost target = walks[dst as nat].1;
    let ghost total = target.len();
    let mut rev: Vec<usize> = Vec::new();
    let mut cur = dst;
    while cur != src
        invariant
            st.inv(links, n as nat, src),
            walks == st.walks@,
            cur < n,
            st.visited@[cur as int],
            target == walks[dst as nat].1,
            total == target.len(),
            rev@.len() <= total,
            walks[cur as nat].1 == target.take(total - rev@.len()),
            forall|i: int| 0 <= i < rev@.len() ==> #[trigger] rev@[i] as nat == target[total - 1 - i],
        decreases walks[cur as nat].1.len(),
    {
        let (p, key) = st.parent[cur];
        proof {
            let before = walks[cur as nat].1;
            assert(before.len() == walks[p as nat].1.len() + 1);
            assert(before.len() == total - rev@.len());
            assert(before.last() == key as nat);
            assert(before.last() == target[total - rev@.len() - 1]);
            assert(walks[p as nat].1 =~= before.drop_last());
            assert(target.take(total - rev@.len() - 1) =~= before.drop_last());
        }
        rev.push(key);
        cur = p;
    }
    proof {
        assert(rev@.len() == total);
    }
    let mut out: Vec<usize> = Vec::new();
    while rev.len() > 0
        invariant
            total == target.len(),
            rev@.len() + out@.len() == total,
            forall|i: int| 0 <= i < rev@.len() ==> #[trigger] rev@[i] as nat == target[total - 1 - i],
            key_views(out@) =~= target.take(out@.len() as int),
        decreases rev@.len(),
    {
        let ghost before = out@;
        let key = rev.pop().unwrap();
        out.push(key);
        proof {
            assert(key_views(out@) =~= key_views(before).push(key as nat));
            assert(target.take(out@.len() as int) =~= target.take(before.len() as int).push(
                target[before.len() as int],
            ));
        }
    }
    proof {
        assert(target.take(total as int) =~= target);
        let nodes = walks[dst as nat].0;
        assert(is_walk(links, nodes, key_views(out@)) && nodes[0] == src as nat && nodes.last()
            == dst as nat);
        assert(connects(links, src as nat, dst as nat, key_views(out@)));
    }
    out
}

/// A graph of units and of the conversion edges between them.
///
/// Units are numbered in the order in which they were registered. Each
/// directed edge `a -> b` carries a factor key chosen by whoever inserted
/// it; the graph hands these keys back along a conversion path.
pub struct ConversionGraph {
    units: Vec<Unit>,
    adjacency: Vec<Vec<(usize, usize)>>,
    index: Ghost<Map<Seq<char>, nat>>,
    links: Ghost<Map<(nat, nat), nat>>,
}

impl ConversionGraph {
    /// The registered units, in order of registration.
    pub closed spec fn spec_units(&self) -> Seq<Unit> {
        self.units@
    }

    /// Every alias (canonical names included) and the number of its unit.
    pub closed spec fn spec_index(&self) -> Map<Seq<char>, nat> {
        self.index@
    }

    /// The factor key of each directed edge `(from, to)`.
    pub closed spec fn spec_links(&self) -> Map<(nat, nat), nat> {
        self.links@
    }

    /// The graph's invariant: every alias resolves to the unit that owns it,
    /// the adjacency lists hold exactly the edges of `spec_links`, and every
    /// edge has its reverse.
    pub closed spec fn wf(&self) -> bool {
        &&& self.wf_tables()
        &&& forall|p: (nat, nat)| #[trigger]
            self.links@.contains_key(p) ==> self.links@.contains_key((p.1, p.0))
    }

    /// The part of the invariant that holds between the two halves of an
    /// edge insertion.
    closed spec fn wf_tables(&self) -> bool {
        let n = self.units@.len();
        let adj = self.adjacency@;
        &&& adj.len() == n
        &&& forall|k: int| 0 <= k < n ==> #[trigger] self.units@[k].valid()
        &&& forall|t: Seq<char>| #[trigger]
            self.index@.contains_key(t) ==> self.index@[t] < n && self.units@[self.index@[t] as int].spec_aliases().contains(t)
        &&& forall|k: int, i: int|
            0 <= k < n && 0 <= i < self.units@[k].spec_aliases().len() ==> self.index@.contains_key(
                #[trigger] self.units@[k].spec_aliases()[i],
            ) && self.index@[self.units@[k].spec_aliases()[i]] == k
        &&& forall|a: int, j: int|
            0 <= a < n && 0 <= j < adj[a]@.len() ==> {
                let e = #[trigger] adj[a]@[j];
                &&& e.0 < n
                &&& self.links@.contains_key((a as nat, e.0 as nat))
                &&& self.links@[(a as nat, e.0 as nat)] == e.1
            }
        &&& forall|a: int, j1: int, j2: int|
            0 <= a < n && 0 <= j1 < j2 < adj[a]@.len() ==> #[trigger] adj[a]@[j1].0
                != #[trigger] adj[a]@[j2].0
        &&& forall|p: (nat, nat)| #[trigger]
            self.links@.contains_key(p) ==> {
                &&& p.0 < n
                &&& p.1 < n
                &&& exists|j: int| 0 <= j < adj[p.0 as int]@.len() && #[trigger] adj[p.0 as int]@[j].0 == p.1
            }
    }

    /// Whether some registered unit has the canonical name `name`.
    pub open spec fn has_unit_named(&self, name: Seq<char>) -> bool {
        exists|k: int| 0 <= k < self.spec_units().len() && #[trigger] self.spec_units()[k].spec_name() == name
    }

    /// How registering `name` with `aliases` ends: the error it fails with,
    /// checked in this order, or `None` when the unit is added.
    pub open spec fn register_outcome(&self, name: Seq<char>, aliases: Seq<Seq<char>>) -> Option<
        ErrorModel,
    > {
        let al = canonical_aliases(name, aliases);
        if name.len() == 0 {
            Some(ErrorModel::EmptyUnitName)
        } else if self.has_unit_named(name) {
            Some(ErrorModel::DuplicateUnit(name))
        } else if aliases.contains(Seq::empty()) {
            Some(ErrorModel::EmptyAlias)
        } else if some_alias_taken(self.spec_index(), al) {
            Some(ErrorModel::DuplicateAlias(al[first_taken(self.spec_index(), al)]))
        } else {
            None
        }
    }

    /// `new` is `old` with the unit `name` appended, every alias of it
    /// resolving to it, and the edges as they were.
    pub open spec fn registered(
        old: &Self,
        new: &Self,
        name: Seq<char>,
        aliases: Seq<Seq<char>>,
        intermediate: bool,
    ) -> bool {
        let al = canonical_aliases(name, aliases);
        let k = old.spec_units().len();
        &&& new.spec_units().len() == k + 1
        &&& new.spec_units().take(k as int) == old.spec_units()
        &&& new.spec_units()[k as int].spec_name() == name
        &&& new.spec_units()[k as int].spec_aliases() == al
        &&& new.spec_units()[k as int].spec_intermediate() == intermediate
        &&& new.spec_index() == old.spec_index().union_prefer_right(
            Map::new(|t: Seq<char>| al.contains(t), |t: Seq<char>| k),
        )
        &&& new.spec_links() == old.spec_links()
    }

    /// An empty graph.
    pub fn new() -> (r: Self)
        ensures
            r.wf(),
            r.spec_units().len() == 0,
            r.spec_index() == Map::<Seq<char>, nat>::empty(),
            r.spec_links() == Map::<(nat, nat), nat>::empty(),
    {
        ConversionGraph {
            units: Vec::new(),
            adjacency: Vec::new(),
            index: Ghost(Map::empty()),
            links: Ghost(Map::empty()),
        }
    }

    /// The number of the unit that `token` names, if any.
    fn unit_index(&self, token: &String) -> (r: Option<usize>)
        requires
            self.wf(),
        ensures
            match r {
                Some(k) => self.spec_index().contains_key(token@) && self.spec_index()[token@]
                    == k,
                None => !self.spec_index().contains_key(token@),
            },
    {
        let n = self.units.len();
        let mut k: usize = 0;
        while k < n
            invariant
                self.wf(),
                n == self.units@.len(),
                k <= n,
                forall|j: int| 0 <= j < k ==> !(#[trigger] self.units@[j]).spec_aliases().contains(token@),
            decreases n - k,
        {
            if self.units[k].answers_to(token) {
                proof {
                    let al = self.units@[k as int].spec_aliases();
                    let i = choose|i: int| 0 <= i < al.len() && al[i] == token@;
                    assert(self.units@[k as int].spec_aliases()[i] == token@);
                }
                return Some(k);
            }
            k = k + 1;
        }
        proof {
            if self.index@.contains_key(token@) {
                let j = self.index@[token@] as int;
                assert(self.units@[j].spec_aliases().contains(token@));
            }
        }
        None
    }

    /// The canonical name of the unit that `token` names, if any.
    pub fn resolve(&self, token: &str) -> (r: Option<String>)
        requires
            self.wf(),
        ensures
            r is Some <==> self.spec_index().contains_key(token@),
            r is Some ==> r->Some_0@ == self.spec_units()[self.spec_index()[token@] as int].spec_name(),
    {
        let t = String::from_str(token);
        match self.unit_index(&t) {
            Some(k) => Some(String::from_str(self.units[k].name())),
            None => None,
        }
    }

    /// Whether `token` is the name or an alias of a registered unit.
    pub fn contains_unit(&self, token: &str) -> (r: bool)
        requires
            self.wf(),
        ensures
            r == self.spec_index().contains_key(token@),
    {
        let t = String::from_str(token);
        self.unit_index(&t).is_some()
    }
    /// The position of the first alias in `al` that is taken, if any.
    fn first_clash(&self, al: &[String]) -> (r: Option<usize>)
        requires
            self.wf(),
        ensures
            ({
                let views = crate::unit::string_views(al@);
                match r {
                    Some(i) => i < al@.len() && some_alias_taken(self.index@, views) && i == first_taken(
                        self.index@,
                        views,
                    ),
                    None => !some_alias_taken(self.index@, views),
                }
            }),
    {
        let ghost views = crate::unit::string_views(al@);
        let ghost idx = self.index@;
        let m = al.len();
        let mut i: usize = 0;
        while i < m
            invariant
                self.wf(),
                idx == self.index@,
                views == crate::unit::string_views(al@),
                m == views.len(),
                i <= m,
                forall|j: int| 0 <= j < i ==> !#[trigger] alias_taken(idx, views, j),
            decreases m - i,
        {
            assert(al@[i as int]@ == views[i as int]);
            let taken = self.unit_index(&al[i]).is_some() || repeats_earlier(al, i);
            if taken {
                proof {
                    assert(alias_taken(idx, views, i as int));
                    assert(some_alias_taken(idx, views));
                    let f = first_taken(idx, views);
                    assert(0 <= f < views.len() && alias_taken(idx, views, f));
                    if f < i {
                        assert(!alias_taken(idx, views, f));
                    }
                    if f > i {
                        assert(!alias_taken(idx, views, i as int));
                    }
                }
                return Some(i);
            }
            i = i + 1;
        }
        None
    }

    /// Appending a unit whose aliases are all new keeps the invariant.
    proof fn lemma_push_unit(old_g: Self, new_g: Self, al: Seq<Seq<char>>)
        requires
            old_g.wf(),
            new_g.units@.len() == old_g.units@.len() + 1,
            new_g.units@.take(old_g.units@.len() as int) == old_g.units@,
            new_g.units@.last().valid(),
            new_g.units@.last().spec_aliases() == al,
            new_g.adjacency@.len() == old_g.adjacency@.len() + 1,
            forall|a: int| 0 <= a < old_g.adjacency@.len() ==> new_g.adjacency@[a] == old_g.adjacency@[a],
            new_g.adjacency@.last()@.len() == 0,
            new_g.index@ == old_g.index@.union_prefer_right(
                Map::new(|t: Seq<char>| al.contains(t), |t: Seq<char>| old_g.units@.len()),
            ),
            new_g.links@ == old_g.links@,
            !some_alias_taken(old_g.index@, al),
        ensures
            new_g.wf(),
    {
        let n = old_g.units@.len();
        assert forall|k: int| 0 <= k < n implies new_g.units@[k] == old_g.units@[k] by {
            assert(new_g.units@.take(n as int)[k] == new_g.units@[k]);
        }
        assert forall|t: Seq<char>| #[trigger]
            new_g.index@.contains_key(t) implies new_g.index@[t] < n + 1
            && new_g.units@[new_g.index@[t] as int].spec_aliases().contains(t) by {
            if !al.contains(t) {
                assert(old_g.index@.contains_key(t));
            }
        }
        assert forall|k: int, i: int|
            0 <= k < n + 1 && 0 <= i < new_g.units@[k].spec_aliases().len() implies new_g.index@.contains_key(
            #[trigger] new_g.units@[k].spec_aliases()[i],
        ) && new_g.index@[new_g.units@[k].spec_aliases()[i]] == k by {
            let a = new_g.units@[k].spec_aliases()[i];
            if k < n {
                assert(old_g.units@[k].spec_aliases()[i] == a);
                if al.contains(a) {
                    let h = choose|h: int| 0 <= h < al.len() && al[h] == a;
                    assert(alias_taken(old_g.index@, al, h));
                }
            } else {
                assert(al[i] == a);
            }
        }
        assert forall|a: int, j: int|
            0 <= a < n + 1 && 0 <= j < new_g.adjacency@[a]@.len() implies {
            let e = #[trigger] new_g.adjacency@[a]@[j];
            &&& e.0 < n + 1
            &&& new_g.links@.contains_key((a as nat, e.0 as nat))
            &&& new_g.links@[(a as nat, e.0 as nat)] == e.1
        } by {
            assert(new_g.adjacency@[a] == old_g.adjacency@[a]);
        }
        assert forall|a: int, j1: int, j2: int|
            0 <= a < n + 1 && 0 <= j1 < j2 < new_g.adjacency@[a]@.len() implies #[trigger] new_g.adjacency@[a]@[j1].0
            != #[trigger] new_g.adjacency@[a]@[j2].0 by {
            assert(new_g.adjacency@[a] == old_g.adjacency@[a]);
        }
        assert forall|p: (nat, nat)| #[trigger] new_g.links@.contains_key(p) implies {
            &&& p.0 < n + 1
            &&& p.1 < n + 1
            &&& exists|j: int|
                0 <= j < new_g.adjacency@[p.0 as int]@.len() && #[trigger] new_g.adjacency@[p.0 as int]@[j].0
                    == p.1
        } by {
            assert(new_g.adjacency@[p.0 as int] == old_g.adjacency@[p.0 as int]);
        }
    }

    /// Sets the factor key of the edge `a -> b`, adding the edge if it is
    /// not there.
    fn set_link(&mut self, a: usize, b: usize, key: usize)
        requires
            old(self).wf_tables(),
            a < old(self).units@.len(),
            b < old(self).units@.len(),
        ensures
            final(self).wf_tables(),
            final(self).units == old(self).units,
            final(self).index == old(self).index,
            final(self).links@ == old(self).links@.insert((a as nat, b as nat), key as nat),
    {
        let ghost pre = *self;
        let n = self.units.len();
        let m = self.adjacency[a].len();
        let mut j: usize = 0;
        while j < m
            invariant
                *self == pre,
                pre == *old(self),
                pre.wf_tables(),
                n == pre.units@.len(),
                a < n,
                b < n,
                m == pre.adjacency@[a as int]@.len(),
                j <= m,
                forall|h: int| 0 <= h < j ==> (#[trigger] pre.adjacency@[a as int]@[h]).0 != b,
            decreases m - j,
        {
            if self.adjacency[a][j].0 == b {
                self.adjacency[a][j] = (b, key);
                self.links = Ghost(self.links@.insert((a as nat, b as nat), key as nat));
                proof {
                    assert(self.adjacency@[a as int]@ == pre.adjacency@[a as int]@.update(
                        j as int,
                        (b, key),
                    ));
                    self.lemma_set_link_kept(pre, a, b, key);
                }
                return;
            }
            j = j + 1;
        }
        self.adjacency[a].push((b, key));
        self.links = Ghost(self.links@.insert((a as nat, b as nat), key as nat));
        proof {
            assert(self.adjacency@[a as int]@ == pre.adjacency@[a as int]@.push((b, key)));
            self.lemma_set_link_kept(pre, a, b, key);
        }
    }

    /// After the entry for `b` in `a`'s list is set to `key` (in place, or
    /// appended when absent), the tables agree again.
    proof fn lemma_set_link_kept(&self, pre: Self, a: usize, b: usize, key: usize)
        requires
            pre.wf_tables(),
            a < pre.units@.len(),
            b < pre.units@.len(),
            self.units == pre.units,
            self.index == pre.index,
            self.links@ == pre.links@.insert((a as nat, b as nat), key as nat),
            self.adjacency@.len() == pre.adjacency@.len(),
            forall|c: int| 0 <= c < pre.adjacency@.len() && c != a ==> self.adjacency@[c] == pre.adjacency@[c],
            ({
                let old_list = pre.adjacency@[a as int]@;
                let new_list = self.adjacency@[a as int]@;
                ||| exists|jj: int|
                    0 <= jj < old_list.len() && old_list[jj].0 == b && new_list == old_list.update(
                        jj,
                        (b, key),
                    )
                ||| (new_list == old_list.push((b, key)) && forall|h: int|
                    0 <= h < old_list.len() ==> (#[trigger] old_list[h]).0 != b)
            }),
        ensures
            self.wf_tables(),
    {
        let n = pre.units@.len();
        let adj = self.adjacency@;
        let old_list = pre.adjacency@[a as int]@;
        let new_list = adj[a as int]@;
        let replaced = exists|jj: int|
            0 <= jj < old_list.len() && old_list[jj].0 == b && new_list == old_list.update(jj, (b, key));
        let jj = if replaced {
            choose|jj: int|
                0 <= jj < old_list.len() && old_list[jj].0 == b && new_list == old_list.update(jj, (b, key))
        } else {
            old_list.len() as int
        };
        assert(new_list[jj] == (b, key));
        assert forall|h: int| 0 <= h < new_list.len() && h != jj implies new_list[h] == old_list[h]
            && old_list[h].0 != b by {
            if replaced {
                assert(pre.adjacency@[a as int]@[h].0 != pre.adjacency@[a as int]@[jj].0 || h > jj);
                assert(pre.adjacency@[a as int]@[h].0 != pre.adjacency@[a as int]@[jj].0 || h < jj);
            }
        }
        assert forall|c: int, j: int| 0 <= c < n && 0 <= j < adj[c]@.len() implies {
            let e = #[trigger] adj[c]@[j];
            &&& e.0 < n
            &&& self.links@.contains_key((c as nat, e.0 as nat))
            &&& self.links@[(c as nat, e.0 as nat)] == e.1
        } by {
            if c == a && j != jj {
                assert(pre.adjacency@[a as int]@[j] == new_list[j]);
            }
            if c != a {
                assert(pre.adjacency@[c]@[j] == adj[c]@[j]);
            }
        }
        assert forall|c: int, j1: int, j2: int|
            0 <= c < n && 0 <= j1 < j2 < adj[c]@.len() implies #[trigger] adj[c]@[j1].0
            != #[trigger] adj[c]@[j2].0 by {
            if c == a {
                if j1 != jj && j2 != jj {
                    assert(pre.adjacency@[a as int]@[j1].0 != pre.adjacency@[a as int]@[j2].0);
                }
            } else {
                assert(pre.adjacency@[c]@[j1].0 != pre.adjacency@[c]@[j2].0);
            }
        }
        assert forall|p: (nat, nat)| #[trigger] self.links@.contains_key(p) implies {
            &&& p.0 < n
            &&& p.1 < n
            &&& exists|j: int| 0 <= j < adj[p.0 as int]@.len() && #[trigger] adj[p.0 as int]@[j].0 == p.1
        } by {
            if p == (a as nat, b as nat) {
                assert(adj[a as int]@[jj].0 == b);
            } else {
                assert(pre.links@.contains_key(p));
                let j = choose|j: int|
                    0 <= j < pre.adjacency@[p.0 as int]@.len() && #[trigger] pre.adjacency@[p.0 as int]@[j].0
                        == p.1;
                if p.0 == a {
                    assert(j != jj);
                    assert(adj[a as int]@[j].0 == p.1);
                } else {
                    assert(adj[p.0 as int]@[j].0 == p.1);
                }
            }
        }
    }

    /// How inserting an edge of this shape between `from` and `to` ends:
    /// the error, checked in this order, or `None` when it is inserted.
    pub open spec fn edge_outcome(&self, from: Seq<char>, to: Seq<char>, shape: FactorShape) -> Option<
        ErrorModel,
    > {
        if shape.spec_rejection() is Some {
            shape.spec_rejection()
        } else if !self.spec_index().contains_key(from) {
            Some(ErrorModel::UnitNotFound(from))
        } else if !self.spec_index().contains_key(to) {
            Some(ErrorModel::UnitNotFound(to))
        } else {
            None
        }
    }

    /// Inserts the edge `from -> to` labelled `forward_key` and its reverse
    /// `to -> from` labelled `backward_key`, replacing any earlier labels of
    /// the two.
    pub fn add_edge(
        &mut self,
        from: &str,
        to: &str,
        shape: FactorShape,
        forward_key: usize,
        backward_key: usize,
    ) -> (r: Result<(), ConversionError>)
        requires
            old(self).wf(),
        ensures
            final(self).wf(),
            r is Err <==> old(self).edge_outcome(from@, to@, shape) is Some,
            r is Err ==> r->Err_0@ == old(self).edge_outcome(from@, to@, shape)->Some_0,
            r is Err ==> *final(self) == *old(self),
            r is Ok ==> {
                let f = old(self).spec_index()[from@];
                let t = old(self).spec_index()[to@];
                &&& final(self).spec_units() == old(self).spec_units()
                &&& final(self).spec_index() == old(self).spec_index()
                &&& final(self).spec_links() == old(self).spec_links().insert(
                    (f, t),
                    forward_key as nat,
                ).insert((t, f), backward_key as nat)
            },
    {
        match shape.check() {
            Ok(()) => {},
            Err(e) => {
                return Err(e);
            },
        }
        let from_s = String::from_str(from);
        let to_s = String::from_str(to);
        let f = match self.unit_index(&from_s) {
            Some(f) => f,
            None => {
                return Err(ConversionError::UnitNotFound(from_s));
            },
        };
        let t = match self.unit_index(&to_s) {
            Some(t) => t,
            None => {
                return Err(ConversionError::UnitNotFound(to_s));
            },
        };
        let ghost pre = *self;
        self.set_link(f, t, forward_key);
        self.set_link(t, f, backward_key);
        proof {
            assert forall|p: (nat, nat)| #[trigger]
                self.links@.contains_key(p) implies self.links@.contains_key((p.1, p.0)) by {
                if p != (f as nat, t as nat) && p != (t as nat, f as nat) {
                    assert(pre.links@.contains_key(p));
                }
            }
        }
        Ok(())
    }

    /// A walk from `src` to a unit not reached yet is longer than the
    /// walk that reached the head of the queue.
    proof fn lemma_frontier(&self, st: &Search, src: usize, nodes: Seq<nat>, keys: Seq<nat>)
        requires
            self.wf(),
            st.inv(self.links@, self.units@.len(), src),
            st.closed_upto(self.adjacency@, st.head as int),
            st.head < st.queue@.len(),
            is_walk(self.links@, nodes, keys),
            nodes[0] == src,
            nodes.last() < self.units@.len(),
            !st.visited@[nodes.last() as int],
        ensures
            keys.len() >= st.depth(st.queue@[st.head as int]) + 1,
        decreases keys.len(),
    {
        let links = self.links@;
        let adj = self.adjacency@;
        let x = nodes.last();
        if keys.len() == 0 {
            assert(x == nodes[0]);
        } else {
            let m = keys.len() - 1;
            lemma_walk_drop_last(links, nodes, keys);
            let n1 = nodes.drop_last();
            let k1 = keys.drop_last();
            let y = nodes[m];
            assert(links.contains_key((y, x)));
            if !st.visited@[y as int] {
                self.lemma_frontier(st, src, n1, k1);
            } else {
                assert(st.queue@.contains(y as usize));
                let i = choose|i: int| 0 <= i < st.queue@.len() && st.queue@[i] == y as usize;
                if i < st.head {
                    let j = choose|j: int| 0 <= j < adj[y as int]@.len() && #[trigger] adj[y as int]@[j].0 == x;
                    assert(st.visited@[adj[st.queue@[i] as int]@[j].0 as int]);
                }
                assert(st.depth(st.queue@[st.head as int]) <= st.depth(st.queue@[i]));
                assert(is_walk(links, n1, k1));
            }
        }
    }

    /// Reaches every unreached neighbour of the unit at the head of the
    /// queue, then moves the head past it.
    #[verifier::rlimit(60)]
    fn expand(&self, st: &mut Search, src: usize)
        requires
            self.wf(),
            old(st).inv(self.links@, self.units@.len(), src),
            old(st).closed_upto(self.adjacency@, old(st).head as int),
            old(st).head < old(st).queue@.len(),
        ensures
            final(st).inv(self.links@, self.units@.len(), src),
            final(st).closed_upto(self.adjacency@, final(st).head as int),
            final(st).head == old(st).head + 1,
    {
        let ghost links = self.links@;
        let ghost adj = self.adjacency@;
        let ghost n = self.units@.len();
        let u = st.queue[st.head];
        let ghost du = st.depth(u);
        let m = self.adjacency[u].len();
        let mut j: usize = 0;
        while j < m
            invariant
                self.wf(),
                links == self.links@,
                adj == self.adjacency@,
                n == self.units@.len(),
                st.inv(links, n, src),
                st.closed_upto(adj, st.head as int),
                st.head == old(st).head,
                st.head < st.queue@.len(),
                st.queue@[st.head as int] == u,
                du == st.depth(u),
                u < n,
                m == adj[u as int]@.len(),
                j <= m,
                forall|jj: int| 0 <= jj < j ==> st.visited@[(#[trigger] adj[u as int]@[jj]).0 as int],
            decreases m - j,
        {
            let (w, key) = self.adjacency[u][j];
            proof {
                assert(adj[u as int]@[j as int] == (w, key));
            }
            if !st.visited[w] {
                let ghost pre = *st;
                proof {
                    assert(pre.visited@[u as int]);
                    lemma_walk_push(
                        links,
                        pre.walks@[u as nat].0,
                        pre.walks@[u as nat].1,
                        w as nat,
                        key as nat,
                    );
                }
                st.visited.set(w, true);
                st.parent.set(w, (u, key));
                st.queue.push(w);
                proof {
                    st.walks = Ghost(
                        st.walks@.insert(
                            w as nat,
                            (
                                pre.walks@[u as nat].0.push(w as nat),
                                pre.walks@[u as nat].1.push(key as nat),
                            ),
                        ),
                    );
                    self.lemma_expand_step(pre, *st, src, u, w, key);
                }
            }
            j = j + 1;
        }
        proof {
            assert forall|jj: int| 0 <= jj < m implies st.visited@[(#[trigger] adj[u as int]@[jj]).0 as int] by {}
        }
        let queued = st.queue.len();
        assert(st.head < queued);
        st.head = st.head + 1;
        proof {
            let q = st.queue@;
            assert forall|i: int, jj: int|
                0 <= i < st.head && 0 <= jj < adj[q[i] as int]@.len() implies st.visited@[(
                #[trigger] adj[q[i] as int]@[jj]).0 as int] by {
                if i == st.head - 1 {
                    assert(q[i] == u);
                }
            }
            if st.head < q.len() {
                assert forall|i: int| st.head <= i < q.len() implies st.depth(#[trigger] q[i]) <= st.depth(
                    q[st.head as int],
                ) + 1 by {
                    assert(st.depth(q[i]) <= du + 1);
                    assert(du <= st.depth(q[st.head as int]));
                }
            }
        }
    }

    /// Reaching `w` from `u`, the head of the queue, keeps the search's
    /// invariant.
    proof fn lemma_expand_step(&self, pre: Search, post: Search, src: usize, u: usize, w: usize, key: usize)
        requires
            self.wf(),
            pre.inv(self.links@, self.units@.len(), src),
            pre.closed_upto(self.adjacency@, pre.head as int),
            pre.head < pre.queue@.len(),
            pre.queue@[pre.head as int] == u,
            u < self.units@.len(),
            w < self.units@.len(),
            !pre.visited@[w as int],
            self.links@.contains_key((u as nat, w as nat)),
            self.links@[(u as nat, w as nat)] == key,
            is_walk(
                self.links@,
                pre.walks@[u as nat].0.push(w as nat),
                pre.walks@[u as nat].1.push(key as nat),
            ),
            post.visited@ == pre.visited@.update(w as int, true),
            post.parent@ == pre.parent@.update(w as int, (u, key)),
            post.queue@ == pre.queue@.push(w),
            post.head == pre.head,
            post.walks@ == pre.walks@.insert(
                w as nat,
                (pre.walks@[u as nat].0.push(w as nat), pre.walks@[u as nat].1.push(key as nat)),
            ),
        ensures
            post.inv(self.links@, self.units@.len(), src),
            post.closed_upto(self.adjacency@, post.head as int),
    {
        let links = self.links@;
        let adj = self.adjacency@;
        let n = self.units@.len();
        let q0 = pre.queue@;
        let q = post.queue@;
        let du = pre.depth(u);
        assert(pre.visited@[u as int]);
        assert(post.depth(w) == du + 1);
        assert forall|v: int| 0 <= v < n && pre.visited@[v] implies post.depth(v as usize) == pre.depth(
            v as usize,
        ) by {
            if v == w {
            }
        }
        assert forall|i: int| 0 <= i < q0.len() implies q0[i] != w by {
            assert(pre.visited@[q0[i] as int]);
        }
        assert forall|i: int| 0 <= i < q.len() implies #[trigger] q[i] < n && post.visited@[q[i] as int] by {
            if i < q0.len() {
                assert(q0[i] == q[i]);
            }
        }
        assert forall|v: int| 0 <= v < n && #[trigger] post.visited@[v] implies q.contains(v as usize) by {
            if v == w {
                assert(q[q.len() - 1] == w);
            } else {
                assert(pre.visited@[v]);
                let i = choose|i: int| 0 <= i < q0.len() && q0[i] == v as usize;
                assert(q[i] == v as usize);
            }
        }
        assert forall|i: int, j: int| 0 <= i <= j < q.len() implies post.depth(#[trigger] q[i]) <= post.depth(
            #[trigger] q[j],
        ) by {
            assert(pre.visited@[q0[i] as int] || i == q0.len());
            if j < q0.len() {
                assert(pre.depth(q0[i]) <= pre.depth(q0[j]));
                assert(pre.visited@[q0[j] as int]);
            } else if i < q0.len() {
                assert(pre.visited@[q0[i] as int]);
                if i < pre.head {
                    assert(pre.depth(q0[i]) <= pre.depth(q0[pre.head as int]));
                } else {
                    assert(pre.depth(q0[i]) <= du + 1);
                }
            }
        }
        assert forall|i: int| post.head <= i < q.len() implies post.depth(#[trigger] q[i]) <= post.depth(
            q[post.head as int],
        ) + 1 by {
            assert(q[post.head as int] == u);
            if i < q0.len() {
                assert(pre.visited@[q0[i] as int]);
                assert(pre.depth(q0[i]) <= du + 1);
            }
        }
        assert forall|nodes: Seq<nat>, keys: Seq<nat>| #[trigger]
            is_walk(links, nodes, keys) && nodes[0] == src && nodes.last() < n
                && post.visited@[nodes.last() as int] implies post.depth(nodes.last() as usize)
            <= keys.len() by {
            if nodes.last() == w {
                self.lemma_frontier(&pre, src, nodes, keys);
            } else {
                assert(pre.visited@[nodes.last() as int]);
            }
        }
        assert forall|v: int| 0 <= v < n && #[trigger] post.visited@[v] implies {
            &&& post.walks@.contains_key(v as nat)
            &&& is_walk(links, post.walks@[v as nat].0, post.walks@[v as nat].1)
            &&& post.walks@[v as nat].0[0] == src
            &&& post.walks@[v as nat].0.last() == v
        } by {
            if v != w {
                assert(pre.visited@[v]);
            }
        }
        assert forall|v: int| 0 <= v < n && #[trigger] post.visited@[v] && v != src implies {
            let p = post.parent@[v].0 as nat;
            &&& p < n
            &&& post.visited@[p as int]
            &&& post.walks@[v as nat].1 == post.walks@[p].1.push(post.parent@[v].1 as nat)
        } by {
            if v != w {
                assert(pre.visited@[v]);
                let p = pre.parent@[v].0;
                assert(pre.visited@[p as int]);
                assert(p != w);
            }
        }
        assert forall|i: int, j: int|
            0 <= i < post.head && 0 <= j < adj[q[i] as int]@.len() implies post.visited@[(
            #[trigger] adj[q[i] as int]@[j]).0 as int] by {
            assert(q[i] == q0[i]);
            assert(pre.visited@[adj[q0[i] as int]@[j].0 as int]);
        }
    }

    /// When the queue is used up without reaching `dst`, no walk leads there.
    proof fn lemma_unreached(&self, st: &Search, src: usize, dst: usize)
        requires
            self.wf(),
            st.inv(self.links@, self.units@.len(), src),
            st.closed_upto(self.adjacency@, st.head as int),
            st.head == st.queue@.len(),
            dst < self.units@.len(),
            !st.visited@[dst as int],
        ensures
            !reachable(self.links@, src as nat, dst as nat),
    {
        let links = self.links@;
        let adj = self.adjacency@;
        assert forall|p: (nat, nat)| #[trigger]
            links.contains_key(p) && p.0 < st.visited@.len() && st.visited@[p.0 as int] implies p.1
            < st.visited@.len() && st.visited@[p.1 as int] by {
            let a = p.0 as int;
            let jj = choose|jj: int| 0 <= jj < adj[a]@.len() && #[trigger] adj[a]@[jj].0 == p.1;
            assert(st.queue@.contains(a as usize));
            let i = choose|i: int| 0 <= i < st.queue@.len() && st.queue@[i] == a as usize;
            assert(st.visited@[adj[st.queue@[i] as int]@[jj].0 as int]);
        }
        if reachable(links, src as nat, dst as nat) {
            let keys = choose|keys: Seq<nat>| #[trigger] connects(links, src as nat, dst as nat, keys);
            let nodes = choose|nodes: Seq<nat>| #[trigger]
                is_walk(links, nodes, keys) && nodes[0] == src as nat && nodes.last() == dst as nat;
            lemma_closed_walk(links, st.visited@, nodes, keys);
        }
    }

    /// Breadth-first search from `src`: the factor keys along a path to
    /// `dst` with as few edges as any, or `None` when no path leads there.
    #[verifier::rlimit(40)]
    fn path_between(&self, src: usize, dst: usize) -> (r: Option<Vec<usize>>)
        requires
            self.wf(),
            src < self.units@.len(),
            dst < self.units@.len(),
        ensures
            r is Some <==> reachable(self.links@, src as nat, dst as nat),
            r is Some ==> connects(self.links@, src as nat, dst as nat, key_views(r->Some_0@)),
            r is Some ==> forall|keys: Seq<nat>| #[trigger]
                connects(self.links@, src as nat, dst as nat, keys) ==> r->Some_0@.len() <= keys.len(),
    {
        let n = self.units.len();
        let ghost links = self.links@;
        let ghost adj = self.adjacency@;
        let mut visited: Vec<bool> = Vec::new();
        let mut parent: Vec<(usize, usize)> = Vec::new();
        let mut k: usize = 0;
        while k < n
            invariant
                k <= n,
                visited@.len() == k,
                parent@.len() == k,
                forall|j: int| 0 <= j < k ==> #[trigger] visited@[j] == (j == src),
            decreases n - k,
        {
            visited.push(k == src);
            parent.push((src, 0));
            k = k + 1;
        }
        let mut queue: Vec<usize> = Vec::new();
        queue.push(src);
        let mut st = Search {
            visited,
            parent,
            queue,
            head: 0,
            walks: Ghost(Map::empty().insert(src as nat, (seq![src as nat], Seq::<nat>::empty()))),
        };
        proof {
            assert(is_walk(links, seq![src as nat], Seq::<nat>::empty()));
            assert(st.queue@[0] == src);
            assert(st.queue@.contains(src));
            assert forall|nodes: Seq<nat>, keys: Seq<nat>| #[trigger]
                is_walk(links, nodes, keys) && nodes[0] == src && nodes.last() < n
                    && st.visited@[nodes.last() as int] implies st.depth(nodes.last() as usize)
                <= keys.len() by {
                assert(nodes.last() == src);
            }
        }
        while st.head < st.queue.len() && !st.visited[dst]
            invariant
                self.wf(),
                links == self.links@,
                adj == self.adjacency@,
                n == self.units@.len(),
                dst < n,
                st.inv(links, n as nat, src),
                st.closed_upto(adj, st.head as int),
            decreases n - st.head, n - st.queue@.len(),
        {
            proof {
                lemma_distinct_below(st.queue@, n as nat);
            }
            self.expand(&mut st, src);
            proof {
                lemma_distinct_below(st.queue@, n as nat);
            }
        }
        if !st.visited[dst] {
            proof {
                self.lemma_unreached(&st, src, dst);
            }
            return None;
        }
        let out = trace_back(&st, Ghost(self.links@), Ghost(n as nat), src, dst);
        proof {
            assert forall|keys: Seq<nat>| #[trigger]
                connects(links, src as nat, dst as nat, keys) implies out@.len() <= keys.len() by {
                let nodes2 = choose|nodes2: Seq<nat>| #[trigger]
                    is_walk(links, nodes2, keys) && nodes2[0] == src as nat && nodes2.last() == dst as nat;
                assert(st.depth(dst) <= keys.len());
            }
        }
        Some(out)
    }

    /// The factor keys along a path with the fewest edges from the unit that
    /// `from` names to the unit that `to` names, in path order: empty when
    /// both name the same unit. Among paths of equal length the search
    /// order of the adjacency lists decides.
    pub fn conversion_path(&self, from: &str, to: &str) -> (r: Result<Vec<usize>, ConversionError>)
        requires
            self.wf(),
        ensures
            ({
                let idx = self.spec_index();
                let links = self.spec_links();
                if !idx.contains_key(from@) {
                    r is Err && r->Err_0@ == ErrorModel::UnitNotFound(from@)
                } else if !idx.contains_key(to@) {
                    r is Err && r->Err_0@ == ErrorModel::UnitNotFound(to@)
                } else if idx[from@] == idx[to@] {
                    r is Ok && r->Ok_0@.len() == 0
                } else {
                    &&& r is Ok <==> reachable(links, idx[from@], idx[to@])
                    &&& r is Ok ==> connects(links, idx[from@], idx[to@], key_views(r->Ok_0@))
                    &&& r is Ok ==> forall|keys: Seq<nat>| #[trigger]
                        connects(links, idx[from@], idx[to@], keys) ==> r->Ok_0@.len() <= keys.len()
                    &&& r is Err ==> r->Err_0@ == ErrorModel::ConversionPathNotFound(from@, to@)
                }
            }),
    {
        let from_s = String::from_str(from);
        let to_s = String::from_str(to);
        let f = match self.unit_index(&from_s) {
            Some(f) => f,
            None => {
                return Err(ConversionError::UnitNotFound(from_s));
            },
        };
        let t = match self.unit_index(&to_s) {
            Some(t) => t,
            None => {
                return Err(ConversionError::UnitNotFound(to_s));
            },
        };
        if f == t {
            return Ok(Vec::new());
        }
        match self.path_between(f, t) {
            Some(keys) => Ok(keys),
            None => Err(ConversionError::ConversionPathNotFound(from_s, to_s)),
        }
    }

    /// One listing line per unit that is not intermediate, in order of
    /// registration.
    pub fn units_formatted(&self) -> (r: Vec<String>)
        ensures
            crate::unit::string_views(r@) == listing(self.spec_units()),
    {
        let n = self.units.len();
        let mut out: Vec<String> = Vec::new();
        let mut k: usize = 0;
        while k < n
            invariant
                n == self.units@.len(),
                k <= n,
                crate::unit::string_views(out@) == listing(self.units@.take(k as int)),
            decreases n - k,
        {
            let ghost before = out@;
            if !self.units[k].is_intermediate() {
                out.push(self.units[k].format_string());
                proof {
                    assert(crate::unit::string_views(out@) =~= crate::unit::string_views(before).push(
                        out@.last()@,
                    ));
                }
            }
            proof {
                assert(self.units@.take(k + 1).drop_last() =~= self.units@.take(k as int));
                assert(self.units@.take(k + 1).last() == self.units@[k as int]);
            }
            k = k + 1;
        }
        proof {
            assert(self.units@.take(n as int) =~= self.units@);
        }
        out
    }

    /// Every registered unit is found under its own canonical name.
    pub proof fn lemma_canonical_name_resolves(&self, k: int)
        requires
            self.wf(),
            0 <= k < self.spec_units().len(),
        ensures
            self.spec_index().contains_key(self.spec_units()[k].spec_name()),
            self.spec_index()[self.spec_units()[k].spec_name()] == k,
    {
        let al = self.units@[k].spec_aliases();
        assert(self.units@[k].valid());
        let i = choose|i: int| 0 <= i < al.len() && al[i] == self.units@[k].spec_name();
        assert(self.units@[k].spec_aliases()[i] == self.units@[k].spec_name());
    }

    /// Once a unit is registered under `name`, registering `name` again
    /// fails with `DuplicateUnit`, whatever the aliases.
    pub proof fn lemma_second_registration_fails(
        first: &Self,
        second: &Self,
        name: Seq<char>,
        aliases: Seq<Seq<char>>,
        intermediate: bool,
        again: Seq<Seq<char>>,
    )
        requires
            second.wf(),
            Self::registered(first, second, name, aliases, intermediate),
        ensures
            second.register_outcome(name, again) == Some(ErrorModel::DuplicateUnit(name)),
    {
        let k = first.spec_units().len() as int;
        assert(second.units@[k].valid());
        assert(second.spec_units()[k].spec_name() == name);
    }

    /// Registering a unit with a valid, new name fails with `DuplicateAlias`
    /// when one of its aliases, or the name itself, is already the name or
    /// an alias of a registered unit. When the new unit's aliases hold no
    /// repeat, the alias the error names is one that was registered before.
    pub proof fn lemma_taken_alias_fails(&self, name: Seq<char>, aliases: Seq<Seq<char>>, taken: Seq<char>)
        requires
            name.len() > 0,
            !self.has_unit_named(name),
            !aliases.contains(Seq::empty()),
            canonical_aliases(name, aliases).contains(taken),
            self.spec_index().contains_key(taken),
        ensures
            self.register_outcome(name, aliases) matches Some(ErrorModel::DuplicateAlias(_)),
            canonical_aliases(name, aliases).no_duplicates() ==> self.spec_index().contains_key(
                self.register_outcome(name, aliases)->Some_0->DuplicateAlias_0,
            ),
    {
        let al = canonical_aliases(name, aliases);
        let i = choose|i: int| 0 <= i < al.len() && al[i] == taken;
        assert(alias_taken(self.index@, al, i));
        if al.no_duplicates() {
            lemma_first_taken_exists(self.index@, al, i);
            let f = first_taken(self.index@, al);
            if al.take(f).contains(al[f]) {
                let h = choose|h: int| 0 <= h < f && al.take(f)[h] == al[f];
                assert(al[h] == al[f]);
            }
        }
    }

    /// Every edge comes with its reverse, so each of the two units reaches
    /// the other in one step.
    pub proof fn lemma_edges_come_in_pairs(&self, a: nat, b: nat)
        requires
            self.wf(),
            self.spec_links().contains_key((a, b)),
        ensures
            self.spec_links().contains_key((b, a)),
            connects(self.spec_links(), a, b, seq![self.spec_links()[(a, b)]]),
            connects(self.spec_links(), b, a, seq![self.spec_links()[(b, a)]]),
            reachable(self.spec_links(), a, b),
            reachable(self.spec_links(), b, a),
    {
        let links = self.links@;
        let ab = seq![links[(a, b)]];
        let ba = seq![links[(b, a)]];
        assert(is_step(links, seq![a, b], ab, 0));
        assert(is_walk(links, seq![a, b], ab));
        assert(is_step(links, seq![b, a], ba, 0));
        assert(is_walk(links, seq![b, a], ba));
    }

    /// Two edges `a -> b` and `b -> c` make a path from `a` to `c`, and
    /// their reverses a path back, with the keys in path order.
    pub proof fn lemma_two_hops_connect(&self, a: nat, b: nat, c: nat)
        requires
            self.wf(),
            self.spec_links().contains_key((a, b)),
            self.spec_links().contains_key((b, c)),
        ensures
            connects(
                self.spec_links(),
                a,
                c,
                seq![self.spec_links()[(a, b)], self.spec_links()[(b, c)]],
            ),
            connects(
                self.spec_links(),
                c,
                a,
                seq![self.spec_links()[(c, b)], self.spec_links()[(b, a)]],
            ),
    {
        let links = self.links@;
        let fwd = seq![links[(a, b)], links[(b, c)]];
        let back = seq![links[(c, b)], links[(b, a)]];
        assert(links.contains_key((c, b)) && links.contains_key((b, a)));
        assert(is_step(links, seq![a, b, c], fwd, 0));
        assert(is_step(links, seq![a, b, c], fwd, 1));
        assert(is_walk(links, seq![a, b, c], fwd));
        assert(is_step(links, seq![c, b, a], back, 0));
        assert(is_step(links, seq![c, b, a], back, 1));
        assert(is_walk(links, seq![c, b, a], back));
    }

    /// Registers a unit under `name` and its aliases, the name among them.
    /// Either the whole unit is added or, on an error, nothing changes.
    #[verifier::rlimit(100)]
    pub fn add_unit(&mut self, name: &str, aliases: Vec<&str>, intermediate: bool) -> (r: Result<
        (),
        ConversionError,
    >)
        requires
            old(self).wf(),
        ensures
            final(self).wf(),
            r is Err <==> old(self).register_outcome(name@, str_views(aliases@)) is Some,
            r is Err ==> r->Err_0@ == old(self).register_outcome(name@, str_views(aliases@))->Some_0,
            r is Err ==> *final(self) == *old(self),
            r is Ok ==> Self::registered(
                old(self),
                final(self),
                name@,
                str_views(aliases@),
                intermediate,
            ),
    {
        let ghost alias_views = str_views(aliases@);
        let ghost al = canonical_aliases(name@, alias_views);
        if name.is_empty() {
            return Err(ConversionError::EmptyUnitName);
        }
        let name_s = String::from_str(name);
        let n = self.units.len();
        let mut k: usize = 0;
        while k < n
            invariant
                self.wf(),
                *self == *old(self),
                n == self.units@.len(),
                k <= n,
                name@.len() > 0,
                name_s@ == name@,
                forall|j: int| 0 <= j < k ==> (#[trigger] self.units@[j]).spec_name() != name@,
            decreases n - k,
        {
            if self.units[k].name_is(&name_s) {
                proof {
                    assert(self.spec_units()[k as int].spec_name() == name@);
                }
                assert(old(self).has_unit_named(name@));
                assert(name@.len() != 0);
                assert(old(self).register_outcome(name@, alias_views) == Some(
                    ErrorModel::DuplicateUnit(name@),
                ));
                return Err(ConversionError::DuplicateUnit(name_s));
            }
            k = k + 1;
        }
        assert(!self.has_unit_named(name@));
        let unit = match Unit::new(name, aliases, intermediate) {
            Ok(u) => u,
            Err(e) => {
                return Err(e);
            },
        };
        let al_exec = unit.aliases();
        match self.first_clash(al_exec) {
            Some(i) => {
                return Err(ConversionError::DuplicateAlias(al_exec[i].clone()));
            },
            None => {},
        }
        let ghost old_self = *self;
        let ghost fresh = Map::new(|t: Seq<char>| al.contains(t), |t: Seq<char>| n as nat);
        self.units.push(unit);
        self.adjacency.push(Vec::new());
        self.index = Ghost(self.index@.union_prefer_right(fresh));
        proof {
            assert(self.units@.take(n as int) =~= old_self.units@);
            Self::lemma_push_unit(old_self, *self, al);
        }
        Ok(())
    }
}

} // verus!
