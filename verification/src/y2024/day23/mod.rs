//! A network of computers, and the groups in it that are all linked to
//! one another.

use crate::table::{lemma_push_contains, lemma_push_no_duplicates, rows};
use crate::text::{chars_of_lines, parse_error, split, split_spec};
use crate::{lines_view, wrapped, AdventError, AdventProblem};
use vstd::prelude::*;

verus! {

pub struct Day23;

/// The two computers that `line` links: what stands before its first
/// hyphen, and what follows up to the next.
pub open spec fn pair_of(line: Seq<char>) -> Option<(Seq<char>, Seq<char>)> {
    let parts = split_spec(line, seq!['-']);
    if parts.len() >= 2 {
        Some((parts[0], parts[1]))
    } else {
        None
    }
}

/// The links that the first `upto` lines write; `None` where one of them
/// writes none.
pub open spec fn pairs_of(lines: Seq<Seq<char>>, upto: int) -> Option<Seq<(Seq<char>, Seq<char>)>>
    decreases upto,
{
    if upto <= 0 {
        Some(Seq::empty())
    } else {
        match (pairs_of(lines, upto - 1), pair_of(lines[upto - 1])) {
            (Some(before), Some(pair)) => Some(before.push(pair)),
            _ => None,
        }
    }
}

/// Links that cannot be read stay so with more lines.
proof fn lemma_pairs_stay_none(lines: Seq<Seq<char>>, from: int, upto: int)
    requires
        from <= upto,
        pairs_of(lines, from) is None,
    ensures
        pairs_of(lines, upto) is None,
    decreases upto - from,
{
    if from < upto {
        lemma_pairs_stay_none(lines, from, upto - 1);
    }
}

/// The links as the names that they hold.
pub open spec fn pairs_view(pairs: Vec<(Vec<char>, Vec<char>)>) -> Seq<(Seq<char>, Seq<char>)> {
    Seq::new(pairs.len() as nat, |k: int| (pairs[k].0@, pairs[k].1@))
}

/// Reads the links, a line each.
pub fn read_pairs(lines: &Vec<Vec<char>>) -> (r: Option<Vec<(Vec<char>, Vec<char>)>>)
    ensures
        match r {
            Some(pairs) => pairs_of(rows(*lines), lines.len() as int) == Some(pairs_view(pairs)),
            None => pairs_of(rows(*lines), lines.len() as int) is None,
        },
{
    let hyphen = vec!['-'];
    assert(hyphen@ =~= seq!['-']);
    let mut pairs: Vec<(Vec<char>, Vec<char>)> = Vec::new();
    let mut i: usize = 0;
    assert(pairs_view(pairs) =~= Seq::empty());
    while i < lines.len()
        invariant
            i <= lines.len(),
            hyphen@ == seq!['-'],
            pairs_of(rows(*lines), i as int) == Some(pairs_view(pairs)),
        decreases lines.len() - i,
    {
        assert(rows(*lines)[i as int] == lines[i as int]@);
        let mut parts = split(&lines[i], &hyphen);
        if parts.len() < 2 {
            proof {
                lemma_pairs_stay_none(rows(*lines), i + 1, lines.len() as int);
            }
            return None;
        }
        let ghost found = rows(parts);
        assert(found[0] == parts[0]@ && found[1] == parts[1]@);
        let second = parts.swap_remove(1);
        let first = parts.swap_remove(0);
        let ghost before = pairs_view(pairs);
        pairs.push((first, second));
        assert(pairs_view(pairs) =~= before.push((found[0], found[1])));
        i += 1;
    }
    Some(pairs)
}

/// The names with `name` among them: at the end, where it is new.
pub open spec fn with_name(names: Seq<Seq<char>>, name: Seq<char>) -> Seq<Seq<char>> {
    if names.contains(name) {
        names
    } else {
        names.push(name)
    }
}

/// The computers of the first `upto` links, each once, in the order in
/// which they come up.
pub open spec fn names_in(pairs: Seq<(Seq<char>, Seq<char>)>, upto: int) -> Seq<Seq<char>>
    decreases upto,
{
    if upto <= 0 {
        Seq::empty()
    } else {
        with_name(with_name(names_in(pairs, upto - 1), pairs[upto - 1].0), pairs[upto - 1].1)
    }
}

/// One of the links joins the computers `a` and `b`.
pub open spec fn linked(pairs: Seq<(Seq<char>, Seq<char>)>, a: Seq<char>, b: Seq<char>) -> bool {
    exists|k: int| 0 <= k < pairs.len() && joins(#[trigger] pairs[k], a, b)
}

/// The link `pair` joins the computers `a` and `b`.
pub open spec fn joins(pair: (Seq<char>, Seq<char>), a: Seq<char>, b: Seq<char>) -> bool {
    pair == (a, b) || pair == (b, a)
}

/// The names of the links come up once each, and those of every link are
/// among them.
proof fn lemma_names_in(pairs: Seq<(Seq<char>, Seq<char>)>, upto: int)
    requires
        0 <= upto <= pairs.len(),
    ensures
        names_in(pairs, upto).no_duplicates(),
        forall|k: int|
            0 <= k < upto ==> names_in(pairs, upto).contains((#[trigger] pairs[k]).0) && names_in(
                pairs,
                upto,
            ).contains(pairs[k].1),
    decreases upto,
{
    if upto > 0 {
        lemma_names_in(pairs, upto - 1);
        let before = names_in(pairs, upto - 1);
        let first = pairs[upto - 1].0;
        let second = pairs[upto - 1].1;
        let mid = with_name(before, first);
        lemma_push_contains(before, first);
        if !before.contains(first) {
            lemma_push_no_duplicates(before, first);
        }
        lemma_push_contains(mid, second);
        if !mid.contains(second) {
            lemma_push_no_duplicates(mid, second);
        }
    }
}

/// Whether the two names are one.
fn same_name(a: &Vec<char>, b: &Vec<char>) -> (r: bool)
    ensures
        r == (a@ == b@),
{
    if a.len() != b.len() {
        return false;
    }
    let mut i: usize = 0;
    while i < a.len()
        invariant
            i <= a.len(),
            a.len() == b.len(),
            forall|k: int| 0 <= k < i ==> a[k] == b[k],
        decreases a.len() - i,
    {
        if a[i] != b[i] {
            return false;
        }
        i += 1;
    }
    assert(a@ =~= b@);
    true
}

/// The place of `name` among `names`.
fn index_of(names: &Vec<Vec<char>>, name: &Vec<char>) -> (r: Option<usize>)
    ensures
        match r {
            Some(i) => i < names.len() && names[i as int]@ == name@,
            None => !rows(*names).contains(name@),
        },
{
    let mut i: usize = 0;
    while i < names.len()
        invariant
            i <= names.len(),
            forall|k: int| 0 <= k < i ==> rows(*names)[k] != name@,
        decreases names.len() - i,
    {
        assert(rows(*names)[i as int] == names[i as int]@);
        if same_name(&names[i], name) {
            return Some(i);
        }
        i += 1;
    }
    None
}

/// Puts `name` among `names`, unless it is there.
fn add_name(names: &mut Vec<Vec<char>>, name: &Vec<char>)
    ensures
        rows(*final(names)) == with_name(rows(*old(names)), name@),
{
    match index_of(names, name) {
        None => {
            let ghost before = rows(*names);
            let copy = copy_name(name);
            names.push(copy);
            assert(names[names.len() - 1]@ == name@);
            assert(rows(*names) =~= before.push(name@));
        },
        Some(i) => {
            assert(rows(*names)[i as int] == name@);
        },
    }
}

/// A copy of `name`.
fn copy_name(name: &Vec<char>) -> (r: Vec<char>)
    ensures
        r@ == name@,
{
    let mut copy: Vec<char> = Vec::new();
    let mut i: usize = 0;
    while i < name.len()
        invariant
            i <= name.len(),
            copy@ == name@.take(i as int),
        decreases name.len() - i,
    {
        copy.push(name[i]);
        assert(copy@ =~= name@.take(i + 1));
        i += 1;
    }
    assert(name@.take(name.len() as int) =~= name@);
    copy
}

/// The computers of a network and which of them are linked.
pub struct Network {
    pub names: Vec<Vec<char>>,
    pub links: Vec<Vec<bool>>,
}

impl Network {
    /// The network holds the computers of the links `pairs`, each once, in
    /// the order in which they come up, and for each two of them whether a
    /// link joins them.
    pub open spec fn fits(&self, pairs: Seq<(Seq<char>, Seq<char>)>) -> bool {
        &&& rows(self.names) == names_in(pairs, pairs.len() as int)
        &&& self.well_formed()
        &&& forall|i: int, j: int|
            0 <= i < self.names.len() && 0 <= j < self.names.len() ==> (#[trigger] self.links[i][j]
                <==> linked(pairs, self.names[i]@, self.names[j]@))
    }

    /// There is a row of links for every computer, with a place for every
    /// computer.
    pub open spec fn well_formed(&self) -> bool {
        &&& self.links.len() == self.names.len()
        &&& forall|i: int|
            0 <= i < self.links.len() ==> (#[trigger] self.links[i]).len() == self.names.len()
    }

    /// The network as its names and its table of links.
    pub open spec fn view(&self) -> Links {
        Links { names: rows(self.names), links: rows(self.links) }
    }
}

/// The names of the computers of a network, and for each two of them
/// whether they are linked.
pub ghost struct Links {
    pub names: Seq<Seq<char>>,
    pub links: Seq<Seq<bool>>,
}

/// The network of the links `pairs`: its computers, each once, in the order
/// in which they come up, and for each two of them whether a link joins
/// them.
pub open spec fn links_of(pairs: Seq<(Seq<char>, Seq<char>)>) -> Links {
    let names = names_in(pairs, pairs.len() as int);
    Links {
        names,
        links: Seq::new(
            names.len(),
            |i: int| Seq::new(names.len(), |j: int| linked(pairs, names[i], names[j])),
        ),
    }
}

/// A network that fits given links is the network of those links.
pub proof fn lemma_fits(net: Network, pairs: Seq<(Seq<char>, Seq<char>)>)
    requires
        net.fits(pairs),
    ensures
        net@ == links_of(pairs),
{
    let n = net.names.len() as int;
    let want = links_of(pairs);
    assert(net@.links.len() == n);
    assert forall|i: int| 0 <= i < n implies #[trigger] net@.links[i] == want.links[i] by {
        assert(net@.links[i] == net.links[i]@);
        assert forall|j: int| 0 <= j < n implies net@.links[i][j] == want.links[i][j] by {
            assert(net.links[i][j] <==> linked(pairs, net.names[i]@, net.names[j]@));
            assert(rows(net.names)[i] == net.names[i]@);
            assert(rows(net.names)[j] == net.names[j]@);
        }
        assert(net@.links[i] =~= want.links[i]);
    }
    assert(net@.links =~= want.links);
}

/// The places of the two names of a link among `names`.
pub open spec fn places_fit(names: Seq<Seq<char>>, pair: (Seq<char>, Seq<char>), place: (usize, usize)) -> bool {
    place.0 < names.len() && place.1 < names.len() && names[place.0 as int] == pair.0 && names[place.1 as int]
        == pair.1
}

/// One of the first `upto` links joins the computers at the places `i` and
/// `j`.
pub open spec fn linked_upto(places: Seq<(usize, usize)>, upto: int, i: int, j: int) -> bool {
    exists|k: int| 0 <= k < upto && joins_places(#[trigger] places[k], i, j)
}

/// The link between the places `place` joins the places `i` and `j`.
pub open spec fn joins_places(place: (usize, usize), i: int, j: int) -> bool {
    (place.0 == i && place.1 == j) || (place.0 == j && place.1 == i)
}

/// The network of the links `pairs`.
pub fn network_of(pairs: &Vec<(Vec<char>, Vec<char>)>) -> (r: Network)
    ensures
        r.fits(pairs_view(*pairs)),
{
    let ghost links = pairs_view(*pairs);
    let mut names: Vec<Vec<char>> = Vec::new();
    let mut k: usize = 0;
    while k < pairs.len()
        invariant
            k <= pairs.len(),
            links == pairs_view(*pairs),
            rows(names) == names_in(links, k as int),
        decreases pairs.len() - k,
    {
        add_name(&mut names, &pairs[k].0);
        add_name(&mut names, &pairs[k].1);
        k += 1;
    }
    proof {
        lemma_names_in(links, links.len() as int);
    }
    let mut places: Vec<(usize, usize)> = Vec::new();
    let mut k: usize = 0;
    while k < pairs.len()
        invariant
            k <= pairs.len(),
            places.len() == k,
            links == pairs_view(*pairs),
            rows(names) == names_in(links, links.len() as int),
            forall|a: int|
                0 <= a < links.len() ==> rows(names).contains((#[trigger] links[a]).0) && rows(
                    names,
                ).contains(links[a].1),
            forall|a: int| 0 <= a < k ==> places_fit(rows(names), links[a], #[trigger] places[a]),
        decreases pairs.len() - k,
    {
        assert(links[k as int] == (pairs[k as int].0@, pairs[k as int].1@));
        let first = index_of(&names, &pairs[k].0);
        let second = index_of(&names, &pairs[k].1);
        match (first, second) {
            (Some(i), Some(j)) => {
                assert(rows(names)[i as int] == names[i as int]@);
                assert(rows(names)[j as int] == names[j as int]@);
                places.push((i, j));
            },
            _ => {
                assert(false);
            },
        }
        k += 1;
    }
    let n = names.len();
    let mut table: Vec<Vec<bool>> = Vec::new();
    let mut i: usize = 0;
    while i < n
        invariant
            i <= n,
            n == names.len(),
            table.len() == i,
            places.len() == pairs.len(),
            forall|a: int| 0 <= a < i ==> (#[trigger] table[a]).len() == n,
            forall|a: int, b: int|
                0 <= a < i && 0 <= b < n ==> (#[trigger] table[a][b] <==> linked_upto(
                    places@,
                    places.len() as int,
                    a,
                    b,
                )),
        decreases n - i,
    {
        let mut row: Vec<bool> = Vec::new();
        let mut j: usize = 0;
        while j < n
            invariant
                j <= n,
                row.len() == j,
                forall|b: int| 0 <= b < j ==> !#[trigger] row[b],
            decreases n - j,
        {
            row.push(false);
            j += 1;
        }
        let mut k: usize = 0;
        while k < places.len()
            invariant
                k <= places.len(),
                i < n,
                row.len() == n,
                forall|b: int|
                    0 <= b < n ==> (#[trigger] row[b] <==> linked_upto(places@, k as int, i as int, b)),
            decreases places.len() - k,
        {
            let (a, b) = places[k];
            let ghost before = row@;
            if a == i && b < n {
                row[b] = true;
            }
            if b == i && a < n {
                row[a] = true;
            }
            proof {
                assert forall|c: int| 0 <= c < n implies (#[trigger] row[c] <==> linked_upto(
                    places@,
                    k + 1,
                    i as int,
                    c,
                )) by {
                    if linked_upto(places@, k + 1, i as int, c) {
                        let w = choose|w: int|
                            0 <= w < k + 1 && joins_places(#[trigger] places@[w], i as int, c);
                        if w < k {
                            assert(linked_upto(places@, k as int, i as int, c));
                        }
                    }
                    if before[c] {
                        let w = choose|w: int|
                            0 <= w < k && joins_places(#[trigger] places@[w], i as int, c);
                        assert(0 <= w < k + 1);
                    }
                    if row[c] && !before[c] {
                        assert(joins_places(places@[k as int], i as int, c));
                    }
                }
            }
            k += 1;
        }
        table.push(row);
        i += 1;
    }
    let net = Network { names, links: table };
    proof {
        assert forall|i: int, j: int| 0 <= i < n && 0 <= j < n implies (#[trigger] net.links[i][j]
            <==> linked(links, net.names[i]@, net.names[j]@)) by {
            let a = net.names[i]@;
            let b = net.names[j]@;
            assert(rows(net.names)[i] == a && rows(net.names)[j] == b);
            if linked_upto(places@, places.len() as int, i, j) {
                let w = choose|w: int|
                    0 <= w < places.len() && joins_places(#[trigger] places@[w], i, j);
                assert(places_fit(rows(net.names), links[w], places[w]));
                assert(joins(links[w], a, b));
            }
            if linked(links, a, b) {
                let w = choose|w: int| 0 <= w < links.len() && joins(#[trigger] links[w], a, b);
                assert(places_fit(rows(net.names), links[w], places[w]));
                let p = places[w];
                assert(rows(net.names)[p.0 as int] == links[w].0);
                assert(rows(net.names)[p.1 as int] == links[w].1);
                assert(joins_places(places@[w], i, j));
            }
        }
    }
    net
}

/// The name begins with a `t`.
pub open spec fn starts_with_t(name: Seq<char>) -> bool {
    name.len() > 0 && name[0] == 't'
}

impl Links {
    /// The computers `i` and `j` are linked.
    pub open spec fn joined(&self, i: int, j: int) -> bool {
        0 <= i < self.names.len() && 0 <= j < self.names.len() && self.links[i][j]
    }

    /// The computers `i`, `j` and `k` are linked each to the next and the
    /// last to the first, and the name of one of them begins with a `t`.
    pub open spec fn is_triple(&self, i: int, j: int, k: int) -> bool {
        &&& self.joined(i, j)
        &&& self.joined(j, k)
        &&& self.joined(k, i)
        &&& (starts_with_t(self.names[i]) || starts_with_t(self.names[j]) || starts_with_t(
            self.names[k],
        ))
    }

    /// The number of such triples of `i`, `j` and a `k` from `j` up to `upto`.
    pub open spec fn triples_with(&self, i: int, j: int, upto: int) -> nat
        decreases upto - j,
    {
        if upto <= j {
            0
        } else {
            self.triples_with(i, j, upto - 1) + if self.is_triple(i, j, upto - 1) {
                1nat
            } else {
                0nat
            }
        }
    }

    /// The number of such triples of `i`, a `j` from `i` up to `upto`, and
    /// a `k` from `j` on.
    pub open spec fn triples_from(&self, i: int, upto: int) -> nat
        decreases upto - i,
    {
        if upto <= i {
            0
        } else {
            self.triples_from(i, upto - 1) + self.triples_with(
                i,
                upto - 1,
                self.names.len() as int,
            )
        }
    }

    /// The number of such triples of an `i` below `upto`, a `j` from `i` on
    /// and a `k` from `j` on: each set of three counts once.
    pub open spec fn triples(&self, upto: int) -> nat
        decreases upto,
    {
        if upto <= 0 {
            0
        } else {
            self.triples(upto - 1) + self.triples_from(upto - 1, self.names.len() as int)
        }
    }

    /// The group that grows from the computer `node` over the first `upto`
    /// computers: `node` itself, and in their order each computer that is
    /// linked to `node` and to all that have joined before.
    pub open spec fn grown(&self, node: usize, upto: int) -> Seq<usize>
        decreases upto,
    {
        if upto <= 0 {
            seq![node]
        } else {
            let before = self.grown(node, upto - 1);
            if self.joined(node as int, upto - 1) && self.joins_all(before, upto - 1) {
                before.push((upto - 1) as usize)
            } else {
                before
            }
        }
    }

    /// The computer `nei` is linked to every one of `group`.
    pub open spec fn joins_all(&self, group: Seq<usize>, nei: int) -> bool {
        forall|a: int| 0 <= a < group.len() ==> self.joined(#[trigger] group[a] as int, nei)
    }

    /// The first of the longest groups that grow from the first `upto`
    /// computers.
    pub open spec fn biggest(&self, upto: int) -> Seq<usize>
        decreases upto,
    {
        if upto <= 0 {
            Seq::empty()
        } else {
            let before = self.biggest(upto - 1);
            let group = self.grown((upto - 1) as usize, self.names.len() as int);
            if group.len() > before.len() {
                group
            } else {
                before
            }
        }
    }

    /// In a group that has grown from a computer, each computer is linked
    /// to all that joined before it.
    pub proof fn lemma_group_is_linked(&self, node: usize, upto: int)
        requires
            upto <= self.names.len() <= usize::MAX,
        ensures
            forall|a: int, b: int|
                0 <= a < b < self.grown(node, upto).len() ==> self.joined(
                    #[trigger] self.grown(node, upto)[a] as int,
                    #[trigger] self.grown(node, upto)[b] as int,
                ),
        decreases upto,
    {
        let group = self.grown(node, upto);
        if upto > 0 {
            self.lemma_group_is_linked(node, upto - 1);
            let before = self.grown(node, upto - 1);
            assert forall|a: int, b: int| 0 <= a < b < group.len() implies self.joined(
                #[trigger] group[a] as int,
                #[trigger] group[b] as int,
            ) by {
                if b < before.len() {
                    assert(group[a] == before[a] && group[b] == before[b]);
                } else {
                    assert(group[a] == before[a]);
                    assert(self.joins_all(before, upto - 1));
                }
            }
        }
    }

    /// The computers of a group that has grown lie in the network.
    pub proof fn lemma_grown_inside(&self, node: usize, upto: int)
        requires
            node < self.names.len(),
            upto <= self.names.len() <= usize::MAX,
        ensures
            forall|a: int|
                0 <= a < self.grown(node, upto).len() ==> #[trigger] self.grown(node, upto)[a]
                    < self.names.len(),
        decreases upto,
    {
        let group = self.grown(node, upto);
        if upto > 0 {
            self.lemma_grown_inside(node, upto - 1);
            let before = self.grown(node, upto - 1);
            assert forall|a: int| 0 <= a < group.len() implies #[trigger] group[a]
                < self.names.len() by {
                if a < before.len() {
                    assert(group[a] == before[a]);
                }
            }
        }
    }

    /// The computers of the longest group lie in the network.
    pub proof fn lemma_group_inside(&self, upto: int)
        requires
            upto <= self.names.len() <= usize::MAX,
        ensures
            forall|a: int|
                0 <= a < self.biggest(upto).len() ==> #[trigger] self.biggest(upto)[a]
                    < self.names.len(),
        decreases upto,
    {
        if upto > 0 {
            self.lemma_group_inside(upto - 1);
            self.lemma_grown_inside((upto - 1) as usize, self.names.len() as int);
            let group = self.biggest(upto);
            assert(group == self.biggest(upto - 1) || group == self.grown(
                (upto - 1) as usize,
                self.names.len() as int,
            ));
        }
    }
}

impl Network {
    /// Whether the name of the computer `i` begins with a `t`.
    fn marked(&self, i: usize) -> (r: bool)
        requires
            i < self.names.len(),
        ensures
            r == starts_with_t(self@.names[i as int]),
    {
        assert(rows(self.names)[i as int] == self.names[i as int]@);
        self.names[i].len() > 0 && self.names[i][0] == 't'
    }

    /// Whether the computers `i` and `j` are linked.
    pub fn is_joined(&self, i: usize, j: usize) -> (r: bool)
        requires
            self.well_formed(),
            i < self.names.len(),
            j < self.names.len(),
        ensures
            r == self@.joined(i as int, j as int),
    {
        assert(rows(self.links)[i as int] == self.links[i as int]@);
        self.links[i][j]
    }

    /// The number of sets of three computers that are all linked to one
    /// another, one of them with a name that begins with a `t`, reduced
    /// modulo 2^32.
    pub fn count_triples(&self) -> (r: u32)
        requires
            self.well_formed(),
        ensures
            r == wrapped(self@.triples(self.names.len() as int)),
    {
        let n = self.names.len();
        let mut total: u32 = 0;
        let ghost mut count: nat = 0;
        let mut i: usize = 0;
        while i < n
            invariant
                i <= n,
                n == self.names.len(),
                self.well_formed(),
                total == wrapped(count),
                count == self@.triples(i as int),
            decreases n - i,
        {
            let ghost begun = count;
            let mut j: usize = i;
            while j < n
                invariant
                    i <= j <= n,
                    i < n,
                    n == self.names.len(),
                    self.well_formed(),
                    total == wrapped(count),
                    count == begun + self@.triples_from(i as int, j as int),
                decreases n - j,
            {
                let ghost half = count;
                let mut k: usize = j;
                while k < n
                    invariant
                        i <= j <= k <= n,
                        j < n,
                        n == self.names.len(),
                        self.well_formed(),
                        total == wrapped(count),
                        count == half + self@.triples_with(i as int, j as int, k as int),
                    decreases n - k,
                {
                    if self.is_joined(i, j) && self.is_joined(j, k) && self.is_joined(k, i) && (
                    self.marked(i) || self.marked(j) || self.marked(k)) {
                        total = ((total as u64 + 1) % 0x1_0000_0000) as u32;
                        proof {
                            count = count + 1;
                        }
                    }
                    k += 1;
                }
                j += 1;
            }
            i += 1;
        }
        total
    }

    /// The group that grows from the computer `node`.
    pub fn grow_group(&self, node: usize) -> (r: Vec<usize>)
        requires
            self.well_formed(),
            node < self.names.len(),
        ensures
            r@ == self@.grown(node, self.names.len() as int),
    {
        let n = self.names.len();
        let mut group: Vec<usize> = Vec::new();
        group.push(node);
        assert(group@ =~= seq![node]);
        let mut nei: usize = 0;
        while nei < n
            invariant
                nei <= n,
                node < n,
                n == self.names.len(),
                self.well_formed(),
                group@ == self@.grown(node, nei as int),
                forall|a: int| 0 <= a < group.len() ==> #[trigger] group[a] < n,
            decreases n - nei,
        {
            if self.is_joined(node, nei) {
                let mut all = true;
                let mut g: usize = 0;
                while g < group.len()
                    invariant
                        g <= group.len(),
                        nei < n,
                        n == self.names.len(),
                        self.well_formed(),
                        forall|a: int| 0 <= a < group.len() ==> #[trigger] group[a] < n,
                        all <==> forall|a: int|
                            0 <= a < g ==> self@.joined(#[trigger] group[a] as int, nei as int),
                    decreases group.len() - g,
                {
                    if !self.is_joined(group[g], nei) {
                        all = false;
                    }
                    g += 1;
                }
                if all {
                    group.push(nei);
                }
            }
            nei += 1;
        }
        group
    }

    /// The first of the longest groups that grow from the computers.
    pub fn biggest_group(&self) -> (r: Vec<usize>)
        requires
            self.well_formed(),
        ensures
            r@ == self@.biggest(self.names.len() as int),
    {
        let mut biggest: Vec<usize> = Vec::new();
        let mut node: usize = 0;
        while node < self.names.len()
            invariant
                node <= self.names.len(),
                self.well_formed(),
                biggest@ == self@.biggest(node as int),
            decreases self.names.len() - node,
        {
            let group = self.grow_group(node);
            if group.len() > biggest.len() {
                biggest = group;
            }
            node += 1;
        }
        biggest
    }
}

/// The network of the links that `lines` write.
pub fn build_neighbors(lines: &Vec<Vec<char>>) -> (r: Option<Network>)
    ensures
        match r {
            Some(net) => net.well_formed() && network_in(rows(*lines)) == Some(net@),
            None => network_in(rows(*lines)) is None,
        },
{
    match read_pairs(lines) {
        Some(pairs) => {
            let net = network_of(&pairs);
            proof {
                lemma_fits(net, pairs_view(pairs));
            }
            Some(net)
        },
        None => None,
    }
}

/// The network of the links that `lines` write, a link each.
pub open spec fn network_in(lines: Seq<Seq<char>>) -> Option<Links> {
    match pairs_of(lines, lines.len() as int) {
        Some(pairs) => Some(links_of(pairs)),
        None => None,
    }
}

/// The number of sets of three computers of the network of `lines` that
/// are all linked to one another, one of them with a name that begins with
/// a `t`, reduced modulo 2^32.
pub open spec fn sets_of_three(lines: Seq<Seq<char>>) -> Option<u32> {
    match network_in(lines) {
        Some(net) => Some(wrapped(net.triples(net.names.len() as int))),
        None => None,
    }
}

/// Counts the sets of three in the network of `lines`.
pub fn count_sets(lines: &Vec<Vec<char>>) -> (r: Result<u32, AdventError>)
    ensures
        crate::is_outcome(r, sets_of_three(rows(*lines))),
{
    match build_neighbors(lines) {
        Some(net) => Ok(net.count_triples()),
        None => Err(parse_error("a line links no two computers")),
    }
}

/// The computers of the first of the longest groups of the network of
/// `lines`, by their names.
pub fn largest_party(lines: &Vec<Vec<char>>) -> (r: Option<Vec<Vec<char>>>)
    ensures
        match r {
            Some(party) => network_in(rows(*lines)) matches Some(net) && rows(party) == net.biggest(
                net.names.len() as int,
            ).map_values(|i: usize| net.names[i as int]),
            None => network_in(rows(*lines)) is None,
        },
{
    match build_neighbors(lines) {
        Some(net) => {
            let group = net.biggest_group();
            proof {
                net@.lemma_group_inside(net.names.len() as int);
            }
            let mut party: Vec<Vec<char>> = Vec::new();
            let mut k: usize = 0;
            while k < group.len()
                invariant
                    k <= group.len(),
                    party.len() == k,
                    forall|a: int| 0 <= a < group.len() ==> #[trigger] group[a] < net.names.len(),
                    forall|a: int| 0 <= a < k ==> (#[trigger] party[a])@ == net.names[group[a] as int]@,
                decreases group.len() - k,
            {
                party.push(copy_name(&net.names[group[k]]));
                k += 1;
            }
            proof {
                let want = net@.biggest(net.names.len() as int).map_values(
                    |i: usize| net@.names[i as int],
                );
                assert forall|a: int| 0 <= a < party.len() implies rows(party)[a] == want[a] by {
                    assert(rows(net.names)[group[a] as int] == net.names[group[a] as int]@);
                }
                assert(rows(party) =~= want);
            }
            Some(party)
        },
        None => None,
    }
}

impl AdventProblem for Day23 {
    open spec fn accepts_part_1(&self, lines: Seq<Seq<char>>) -> bool {
        true
    }

    open spec fn accepts_part_2(&self, lines: Seq<Seq<char>>) -> bool {
        true
    }

    open spec fn answer_part_1(&self, lines: Seq<Seq<char>>) -> Option<u32> {
        sets_of_three(lines)
    }

    open spec fn answer_part_2(&self, lines: Seq<Seq<char>>) -> Option<u32> {
        match network_in(lines) {
            Some(_) => Some(0),
            None => None,
        }
    }

    fn run_part_1(&self, lines: Vec<String>) -> (r: Result<u32, AdventError>) {
        let text = chars_of_lines(&lines);
        count_sets(&text)
    }

    fn run_part_2(&self, lines: Vec<String>) -> (r: Result<u32, AdventError>) {
        let text = chars_of_lines(&lines);
        match largest_party(&text) {
            Some(_) => Ok(0),
            None => Err(parse_error("a line links no two computers")),
        }
    }
}

} // verus!
