//! Ways through a graph of named nodes.
//!
//! Each line names a node and, after a colon, the nodes that it leads to.
//! The first answer counts the ways from `you` to `out`. The second
//! counts the ways from `svr` to `out` that pass through both `dac` and
//! `fft`.

use vstd::prelude::*;
use vstd::string::StringSliceAdditionalSpecFns;
use crate::ascii::COLON;
use crate::lines::{
    find_byte, first_index, line_views, same_bytes, spec_lines, split_lines, split_words, trim,
    trim_slice, word_views, words_from,
};

verus! {

/// The number of the node `out`.
pub const OUT_ID: u16 = 0;

/// The number of the node `you`.
pub const YOU_ID: u16 = 1;

/// The number of the node `svr`.
pub const SVR_ID: u16 = 2;

/// The number of the node `dac`.
pub const DAC_ID: u16 = 3;

/// The number of the node `fft`.
pub const FFT_ID: u16 = 4;

/// A number that names no node.
pub const NO_NODE: u16 = 0xffff;

/// Why a text has no answer.
#[derive(Copy, Clone, Debug, PartialEq, Eq, Structural)]
pub enum Error {
    /// A line has no colon.
    MissingColon,
    /// More nodes than 16 bits can number.
    TooManyNodes,
    /// A way leads back to a node that it has passed.
    Cycle,
    /// A count does not fit in 64 bits.
    Overflow,
}

/// The names as the table holds them at the start: the five nodes that
/// the answers speak of.
pub open spec fn first_names() -> Seq<Seq<u8>> {
    seq![seq![111u8, 117, 116], seq![121u8, 111, 117], seq![115u8, 118, 114], seq![
        100u8,
        97,
        99,
    ], seq![102u8, 102, 116]]
}

/// The number of a name in the table: the first position that holds it.
pub open spec fn lookup(names: Seq<Seq<u8>>, name: Seq<u8>) -> Option<int> {
    if exists|i: int| 0 <= i < names.len() && names[i] == name {
        Some(
            choose|i: int|
                0 <= i < names.len() && names[i] == name && forall|j: int|
                    0 <= j < i ==> names[j] != name,
        )
    } else {
        None
    }
}

/// The table with the name in it.
pub open spec fn with_name(names: Seq<Seq<u8>>, name: Seq<u8>) -> Seq<Seq<u8>> {
    if lookup(names, name) is Some {
        names
    } else {
        names.push(name)
    }
}

/// The table with the names from the `k`-th on in it.
pub open spec fn with_names(names: Seq<Seq<u8>>, words: Seq<Seq<u8>>, k: int) -> Seq<Seq<u8>>
    decreases words.len() - k,
{
    if k < 0 || k >= words.len() {
        names
    } else {
        with_names(with_name(names, words[k]), words, k + 1)
    }
}

/// The numbers of the names.
pub open spec fn numbers_of(names: Seq<Seq<u8>>, words: Seq<Seq<u8>>) -> Seq<int> {
    Seq::new(words.len(), |k: int| lookup(names, words[k]).unwrap())
}

/// The lists of a graph, made as long as the table of names.
pub open spec fn grown(adj: Seq<Seq<int>>, len: int) -> Seq<Seq<int>> {
    Seq::new(
        len as nat,
        |i: int| if i < adj.len() { adj[i] } else { Seq::<int>::empty() },
    )
}

/// A graph: the names of its nodes, and for each node the numbers of the
/// nodes that it leads to.
pub struct GraphModel {
    pub names: Seq<Seq<u8>>,
    pub adj: Seq<Seq<int>>,
}

/// The graph after the lines from the `i`-th on.
pub open spec fn spec_graph(lines: Seq<Seq<u8>>, i: int, graph: GraphModel) -> Result<
    GraphModel,
    Error,
>
    decreases lines.len() - i,
{
    if i < 0 || i >= lines.len() {
        Ok(graph)
    } else {
        let line = trim(lines[i]);
        if line.len() == 0 {
            spec_graph(lines, i + 1, graph)
        } else {
            match first_index(line, COLON) {
                None => Err(Error::MissingColon),
                Some(colon) => {
                    let source = trim(line.subrange(0, colon));
                    let targets = words_from(line, colon + 1, Seq::empty());
                    let names = with_names(with_name(graph.names, source), targets, 0);
                    if names.len() > NO_NODE {
                        Err(Error::TooManyNodes)
                    } else {
                        let at = lookup(names, source).unwrap();
                        spec_graph(
                            lines,
                            i + 1,
                            GraphModel {
                                names,
                                adj: grown(graph.adj, names.len() as int).update(
                                    at,
                                    numbers_of(names, targets),
                                ),
                            },
                        )
                    }
                },
            }
        }
    }
}

/// The graph of a text.
pub open spec fn spec_parse_graph(s: Seq<u8>) -> Result<GraphModel, Error> {
    spec_graph(
        spec_lines(s),
        0,
        GraphModel { names: first_names(), adj: grown(Seq::empty(), 5) },
    )
}

/// How many ways of at most `fuel` steps lead from `node` to `target`
/// without passing `forbidden`. A way ends where it first meets the
/// target.
pub open spec fn ways(adj: Seq<Seq<int>>, node: int, target: int, forbidden: int, fuel: nat) -> int
    decreases fuel, 0int,
{
    if node == target {
        1
    } else if node == forbidden {
        0
    } else if fuel == 0 || node < 0 || node >= adj.len() {
        0
    } else {
        ways_over(adj, node, adj[node].len() as int, target, forbidden, (fuel - 1) as nat)
    }
}

/// The ways from the first `k` nodes that `node` leads to, added up.
pub open spec fn ways_over(
    adj: Seq<Seq<int>>,
    node: int,
    k: int,
    target: int,
    forbidden: int,
    fuel: nat,
) -> int
    decreases fuel, 1int, k,
{
    if k <= 0 || node < 0 || node >= adj.len() || k > adj[node].len() {
        0
    } else {
        ways_over(adj, node, k - 1, target, forbidden, fuel) + ways(
            adj,
            adj[node][k - 1],
            target,
            forbidden,
            fuel,
        )
    }
}

/// A graph: the names of its nodes, and for each node the numbers of the
/// nodes that it leads to.
pub struct Graph {
    pub names: Vec<Vec<u8>>,
    pub adj: Vec<Vec<u16>>,
}

/// What the vectors of names hold.
pub open spec fn name_views(names: Seq<Vec<u8>>) -> Seq<Seq<u8>> {
    Seq::new(names.len(), |i: int| names[i]@)
}

/// The lists as mathematical integers.
pub open spec fn adj_view(adj: Seq<Vec<u16>>) -> Seq<Seq<int>> {
    Seq::new(adj.len(), |i: int| Seq::new(adj[i]@.len(), |k: int| adj[i]@[k] as int))
}

impl Graph {
    pub open spec fn view(&self) -> GraphModel {
        GraphModel { names: name_views(self.names@), adj: adj_view(self.adj@) }
    }

    /// Every node has a list, and the lists hold numbers of nodes.
    pub open spec fn wf(&self) -> bool {
        &&& self.adj.len() == self.names.len()
        &&& 5 <= self.names.len() <= NO_NODE
        &&& forall|i: int, k: int|
            0 <= i < self.adj.len() && 0 <= k < self.adj[i].len() ==> (#[trigger] self.adj[i][k])
                < self.adj.len()
    }
}

/// The number of a name in the table.
fn find_name(names: &Vec<Vec<u8>>, name: &[u8]) -> (r: Option<usize>)
    ensures
        match (r, lookup(name_views(names@), name@)) {
            (Some(at), Some(i)) => at == i && at < names.len(),
            (None, None) => true,
            _ => false,
        },
{
    let ghost table = name_views(names@);
    let mut i: usize = 0;
    while i < names.len()
        invariant
            i <= names.len(),
            table == name_views(names@),
            forall|j: int| 0 <= j < i ==> table[j] != name@,
        decreases names.len() - i,
    {
        proof {
            assert(table[i as int] == names[i as int]@);
        }
        if same_bytes(names[i].as_slice(), name) {
            proof {
                let first = choose|first: int|
                    0 <= first < table.len() && table[first] == name@ && forall|j: int|
                        0 <= j < first ==> table[j] != name@;
                if first < i {
                    assert(table[first] != name@);
                }
                if i < first {
                    assert(table[i as int] != name@);
                }
            }
            return Some(i);
        }
        i += 1;
    }
    None
}

/// The number of a name, which is put in the table if it is new.
fn intern(names: &mut Vec<Vec<u8>>, name: &[u8]) -> (at: usize)
    ensures
        name_views(final(names)@) == with_name(name_views(old(names)@), name@),
        lookup(name_views(final(names)@), name@) == Some(at as int),
        at < final(names).len(),
        old(names).len() <= final(names).len(),
        forall|other: Seq<u8>|
            lookup(name_views(old(names)@), other) is Some ==> lookup(
                name_views(final(names)@),
                other,
            ) == lookup(name_views(old(names)@), other),
{
    let ghost before = name_views(names@);
    match find_name(names, name) {
        Some(at) => at,
        None => {
            let at: usize = names.len();
            names.push(vstd::slice::slice_to_vec(name));
            proof {
                let after = name_views(names@);
                assert(after =~= before.push(name@));
                assert(after[at as int] == name@);
                lemma_lookup_first(after, name@, at as int);
                assert forall|other: Seq<u8>| lookup(before, other) is Some implies lookup(
                    after,
                    other,
                ) == lookup(before, other) by {
                    lemma_lookup_some(before, other);
                    let i = lookup(before, other).unwrap();
                    assert(after[i] == before[i]);
                    assert forall|j: int| 0 <= j < i implies after[j] != other by {
                        assert(after[j] == before[j]);
                    }
                    lemma_lookup_first(after, other, i);
                }
            }
            at
        },
    }
}

/// The first position at or before `at` that holds the name.
proof fn lemma_leftmost(names: Seq<Seq<u8>>, name: Seq<u8>, at: int) -> (first: int)
    requires
        0 <= at < names.len(),
        names[at] == name,
    ensures
        0 <= first <= at,
        names[first] == name,
        forall|j: int| 0 <= j < first ==> names[j] != name,
    decreases at,
{
    if exists|j: int| 0 <= j < at && names[j] == name {
        let j = choose|j: int| 0 <= j < at && names[j] == name;
        lemma_leftmost(names, name, j)
    } else {
        at
    }
}

/// The number of a name that the table holds is the first position that
/// holds it.
pub proof fn lemma_lookup_some(names: Seq<Seq<u8>>, name: Seq<u8>)
    requires
        lookup(names, name) is Some,
    ensures
        0 <= lookup(names, name).unwrap() < names.len(),
        names[lookup(names, name).unwrap()] == name,
        forall|j: int| 0 <= j < lookup(names, name).unwrap() ==> names[j] != name,
{
    let at = choose|i: int| 0 <= i < names.len() && names[i] == name;
    let first = lemma_leftmost(names, name, at);
    lemma_lookup_first(names, name, first);
}

/// The first position that holds a name is its number.
proof fn lemma_lookup_first(names: Seq<Seq<u8>>, name: Seq<u8>, at: int)
    requires
        0 <= at < names.len(),
        names[at] == name,
        forall|j: int| 0 <= j < at ==> names[j] != name,
    ensures
        lookup(names, name) == Some(at),
{
    let first = lookup(names, name).unwrap();
    if first < at {
        assert(names[first] != name);
    }
    if at < first {
        assert(names[at] != name);
    }
}

/// The five names that the table holds at the start.
fn first_table() -> (names: Vec<Vec<u8>>)
    ensures
        name_views(names@) == first_names(),
{
    let mut names: Vec<Vec<u8>> = Vec::new();
    names.push(vec![111u8, 117, 116]);
    names.push(vec![121u8, 111, 117]);
    names.push(vec![115u8, 118, 114]);
    names.push(vec![100u8, 97, 99]);
    names.push(vec![102u8, 102, 116]);
    proof {
        let views = name_views(names@);
        assert(views.len() == 5);
        assert(views[0] =~= seq![111u8, 117, 116]);
        assert(views[1] =~= seq![121u8, 111, 117]);
        assert(views[2] =~= seq![115u8, 118, 114]);
        assert(views[3] =~= seq![100u8, 97, 99]);
        assert(views[4] =~= seq![102u8, 102, 116]);
        assert(views =~= first_names());
    }
    names
}

/// The numbers of a source and its targets, which are put in the table
/// where they are new.
fn resolve(names: &mut Vec<Vec<u8>>, source: &[u8], targets: &Vec<&[u8]>) -> (r: (usize, Vec<usize>))
    ensures
        name_views(final(names)@) == with_names(
            with_name(name_views(old(names)@), source@),
            word_views(targets@),
            0,
        ),
        old(names).len() <= final(names).len(),
        lookup(name_views(final(names)@), source@) == Some(r.0 as int),
        r.0 < final(names).len(),
        r.1.len() == targets.len(),
        forall|j: int|
            0 <= j < targets.len() ==> lookup(name_views(final(names)@), word_views(targets@)[j])
                == Some(#[trigger] r.1[j] as int) && r.1[j] < final(names).len(),
{
    let ghost given = name_views(names@);
    let ghost words = word_views(targets@);
    let at: usize = intern(names, source);
    let mut ids: Vec<usize> = Vec::new();
    let mut k: usize = 0;
    while k < targets.len()
        invariant
            k <= targets.len(),
            ids.len() == k,
            words == word_views(targets@),
            old(names).len() <= names.len(),
            with_names(with_name(given, source@), words, 0) == with_names(
                name_views(names@),
                words,
                k as int,
            ),
            lookup(name_views(names@), source@) == Some(at as int),
            at < names.len(),
            forall|j: int|
                0 <= j < k ==> lookup(name_views(names@), words[j]) == Some(
                    #[trigger] ids[j] as int,
                ) && ids[j] < names.len(),
        decreases targets.len() - k,
    {
        proof {
            assert(words[k as int] == targets[k as int]@);
        }
        let ghost before = name_views(names@);
        let ghost found = ids@;
        let id: usize = intern(names, targets[k]);
        ids.push(id);
        proof {
            assert forall|j: int| 0 <= j < k + 1 implies lookup(name_views(names@), words[j])
                == Some(#[trigger] ids[j] as int) && ids[j] < names.len() by {
                if j < k {
                    assert(lookup(before, words[j]) == Some(found[j] as int));
                }
            }
        }
        k += 1;
    }
    (at, ids)
}

/// Makes the lists as many as there are names, and sets the list of the
/// node `at`.
fn store(adj: &mut Vec<Vec<u16>>, count: usize, at: usize, ids: &Vec<usize>)
    requires
        old(adj).len() <= count <= NO_NODE,
        at < count,
        forall|j: int| 0 <= j < ids.len() ==> (#[trigger] ids[j]) < count,
        forall|i: int, k: int|
            0 <= i < old(adj).len() && 0 <= k < old(adj)[i].len() ==> (#[trigger] old(adj)[i][k])
                < old(adj).len(),
    ensures
        final(adj).len() == count,
        adj_view(final(adj)@) == grown(adj_view(old(adj)@), count as int).update(
            at as int,
            Seq::new(ids.len() as nat, |j: int| ids[j] as int),
        ),
        forall|i: int, k: int|
            0 <= i < final(adj).len() && 0 <= k < final(adj)[i].len() ==> (#[trigger] final(adj)[i][k]) < count,
{
    let ghost old_adj = adj@;
    while adj.len() < count
        invariant
            old_adj.len() <= adj.len() <= count,
            forall|i: int| 0 <= i < old_adj.len() ==> adj[i] == old_adj[i],
            forall|i: int| old_adj.len() <= i < adj.len() ==> (#[trigger] adj[i]).len() == 0,
        decreases count - adj.len(),
    {
        adj.push(Vec::new());
    }
    let mut list: Vec<u16> = Vec::new();
    let mut j: usize = 0;
    while j < ids.len()
        invariant
            j <= ids.len(),
            list.len() == j,
            count <= NO_NODE,
            forall|i: int| 0 <= i < ids.len() ==> (#[trigger] ids[i]) < count,
            forall|i: int| 0 <= i < j ==> (#[trigger] list[i]) == ids[i],
        decreases ids.len() - j,
    {
        list.push(ids[j] as u16);
        j += 1;
    }
    let ghost grown_adj = adj@;
    adj[at] = list;
    proof {
        let wanted = grown(adj_view(old_adj), count as int).update(
            at as int,
            Seq::new(ids.len() as nat, |j: int| ids[j] as int),
        );
        let got = adj_view(adj@);
        assert(got.len() == wanted.len());
        assert forall|i: int| 0 <= i < got.len() implies got[i] == wanted[i] by {
            if i == at {
                assert(got[i] =~= Seq::new(ids.len() as nat, |j: int| ids[j] as int));
            } else if i < old_adj.len() {
                assert(adj@[i] == grown_adj[i]);
                assert(got[i] =~= adj_view(old_adj)[i]);
            } else {
                assert(adj@[i] == grown_adj[i]);
                assert(got[i] =~= Seq::<int>::empty());
            }
        }
        assert(got =~= wanted);
        assert forall|i: int, k: int|
            0 <= i < adj.len() && 0 <= k < adj[i].len() implies (#[trigger] adj[i][k]) < count by {
            if i != at {
                assert(adj@[i] == grown_adj[i]);
                if i < old_adj.len() {
                    assert(old_adj[i][k] < old_adj.len());
                }
            }
        }
    }
}

/// Takes one line into the graph.
fn add_line(graph: &mut Graph, line: &[u8], colon: usize) -> (r: Result<(), Error>)
    requires
        old(graph).wf(),
        colon < line.len(),
    ensures
        ({
            let source = trim(line@.subrange(0, colon as int));
            let targets = words_from(line@, colon + 1, Seq::empty());
            let names = with_names(with_name(old(graph)@.names, source), targets, 0);
            match r {
                Err(e) => e == Error::TooManyNodes && names.len() > NO_NODE,
                Ok(_) => names.len() <= NO_NODE && final(graph).wf() && final(graph)@ == (GraphModel {
                    names,
                    adj: grown(old(graph)@.adj, names.len() as int).update(
                        lookup(names, source).unwrap(),
                        numbers_of(names, targets),
                    ),
                }),
            }
        }),
{
    let source = trim_slice(&line[0..colon]);
    let targets = split_words(line, colon + 1);
    let (at, ids) = resolve(&mut graph.names, source, &targets);
    if graph.names.len() > NO_NODE as usize {
        return Err(Error::TooManyNodes);
    }
    store(&mut graph.adj, graph.names.len(), at, &ids);
    proof {
        assert(Seq::new(ids.len() as nat, |j: int| ids[j] as int) =~= numbers_of(
            name_views(graph.names@),
            word_views(targets@),
        ));
    }
    Ok(())
}

/// Reads the graph of a text.
pub fn parse_graph(bytes: &[u8]) -> (r: Result<Graph, Error>)
    ensures
        match (r, spec_parse_graph(bytes@)) {
            (Ok(graph), Ok(model)) => graph@ == model && graph.wf(),
            (Err(e), Err(f)) => e == f,
            _ => false,
        },
{
    let lines = split_lines(bytes);
    let mut adj: Vec<Vec<u16>> = Vec::new();
    let mut n: usize = 0;
    while n < 5
        invariant
            n <= 5,
            adj.len() == n,
            forall|i: int| 0 <= i < n ==> (#[trigger] adj[i]).len() == 0,
        decreases 5 - n,
    {
        adj.push(Vec::new());
        n += 1;
    }
    let mut graph = Graph { names: first_table(), adj };
    proof {
        assert(graph@.adj =~= grown(Seq::empty(), 5)) by {
            assert forall|i: int| 0 <= i < 5 implies graph@.adj[i] == grown(Seq::empty(), 5)[i] by {
                assert(graph@.adj[i] =~= Seq::<int>::empty());
            }
        }
    }
    let mut i: usize = 0;
    while i < lines.len()
        invariant
            i <= lines.len(),
            line_views(lines@) == spec_lines(bytes@),
            graph.wf(),
            spec_parse_graph(bytes@) == spec_graph(spec_lines(bytes@), i as int, graph@),
        decreases lines.len() - i,
    {
        proof {
            assert(line_views(lines@)[i as int] == lines[i as int]@);
        }
        let line = trim_slice(lines[i]);
        if line.len() > 0 {
            let colon = match find_byte(line, COLON) {
                Some(colon) => colon,
                None => {
                    return Err(Error::MissingColon);
                },
            };
            match add_line(&mut graph, line, colon) {
                Ok(_) => {},
                Err(e) => {
                    return Err(e);
                },
            }
        }
        i += 1;
    }
    Ok(graph)
}

/// A walk along the lists of the graph that goes on from no node but
/// the last: each node before the last is neither the target nor the
/// forbidden node.
pub open spec fn is_walk(adj: Seq<Seq<int>>, walk: Seq<int>, target: int, forbidden: int) -> bool {
    &&& walk.len() >= 1
    &&& forall|i: int|
        0 <= i < walk.len() - 1 ==> {
            &&& 0 <= #[trigger] walk[i] < adj.len()
            &&& walk[i] != target
            &&& walk[i] != forbidden
            &&& adj[walk[i]].contains(walk[i + 1])
        }
}

/// Some walk from `node` comes back to a node that it has passed: the
/// ways from `node` to the target cannot be counted.
pub open spec fn has_cycle(adj: Seq<Seq<int>>, node: int, target: int, forbidden: int) -> bool {
    exists|walk: Seq<int>, j: int|
        #[trigger] is_walk(adj, walk, target, forbidden) && walk[0] == node && 0 <= j < walk.len()
            - 1 && #[trigger] walk[j] == walk[walk.len() - 1]
}

/// How many nodes the search has not come to.
pub open spec fn white_count(state: Seq<u8>) -> nat
    decreases state.len(),
{
    if state.len() == 0 {
        0
    } else {
        white_count(state.drop_last()) + if state.last() == 0 { 1nat } else { 0nat }
    }
}

proof fn lemma_white_update(state: Seq<u8>, i: int, v: u8)
    requires
        0 <= i < state.len(),
        v != 0,
    ensures
        white_count(state.update(i, v)) == white_count(state) - if state[i] == 0 { 1int } else { 0int },
        white_count(state) <= state.len(),
    decreases state.len(),
{
    let last = state.len() - 1;
    if i < last {
        lemma_white_update(state.drop_last(), i, v);
        assert(state.update(i, v).drop_last() =~= state.drop_last().update(i, v));
    } else {
        assert(state.update(i, v).drop_last() =~= state.drop_last());
        lemma_white_bound(state.drop_last());
    }
}

proof fn lemma_white_bound(state: Seq<u8>)
    ensures
        white_count(state) <= state.len(),
    decreases state.len(),
{
    if state.len() > 0 {
        lemma_white_bound(state.drop_last());
    }
}

proof fn lemma_white_all(n: nat)
    ensures
        white_count(Seq::new(n, |i: int| 0u8)) == n,
    decreases n,
{
    if n > 0 {
        lemma_white_all((n - 1) as nat);
        assert(Seq::new(n, |i: int| 0u8).drop_last() =~= Seq::new((n - 1) as nat, |i: int| 0u8));
    }
}

/// The count that is settled for a node: one for the target, none for
/// the forbidden node, and what the search has noted for any other.
pub open spec fn settled_value(memo: Seq<u64>, w: int, target: int, forbidden: int) -> int {
    if w == target {
        1
    } else if w == forbidden {
        0
    } else {
        memo[w] as int
    }
}

/// The settled counts of the first `k` nodes that `node` leads to, added
/// up.
pub open spec fn settled_sum(
    adj: Seq<Seq<int>>,
    memo: Seq<u64>,
    node: int,
    k: int,
    target: int,
    forbidden: int,
) -> int
    decreases k,
{
    if k <= 0 {
        0
    } else {
        settled_sum(adj, memo, node, k - 1, target, forbidden) + settled_value(
            memo,
            adj[node][k - 1],
            target,
            forbidden,
        )
    }
}

/// What a search knows on its way.
pub struct Search {
    state: Vec<u8>,
    memo: Vec<u64>,
    finished: usize,
    rank: Ghost<Seq<nat>>,
    stack: Ghost<Seq<int>>,
}

/// A node is settled: it is the target or the forbidden node, or the
/// search is done with it.
spec fn is_settled(s: Search, w: int, target: int, forbidden: int) -> bool {
    w == target || w == forbidden || (0 <= w < s.state@.len() && s.state@[w] == 2)
}

/// The search was done with `w` before it was done with `v`, unless `w`
/// is the target or the forbidden node.
spec fn done_before(s: Search, v: int, w: int, target: int, forbidden: int) -> bool {
    w == target || w == forbidden || (0 <= w < s.state@.len() && s.state@[w] == 2 && s.rank@[w]
        < s.rank@[v])
}

/// The second search is done with every node that the first is done
/// with, and has the same count for it.
spec fn keeps_done(a: Search, b: Search, n: int) -> bool {
    forall|v: int|
        0 <= v < n && a.state@[v] == 2 ==> (#[trigger] b.state@[v]) == 2 && b.memo@[v] == a.memo@[v]
}

proof fn lemma_keeps_done(a: Search, b: Search, c: Search, n: int)
    requires
        keeps_done(a, b, n),
        keeps_done(b, c, n),
    ensures
        keeps_done(a, c, n),
{
    assert forall|v: int| 0 <= v < n && a.state@[v] == 2 implies (#[trigger] c.state@[v]) == 2
        && c.memo@[v] == a.memo@[v] by {
        assert(b.state@[v] == 2);
        assert(c.state@[v] == 2);
    }
}

/// What holds of a search between two steps.
#[verifier::opaque]
spec fn inv(adj: Seq<Seq<int>>, target: int, forbidden: int, s: Search) -> bool {
    let n = adj.len();
    let stack = s.stack@;
    &&& s.state@.len() == n
    &&& s.memo@.len() == n
    &&& s.rank@.len() == n
    &&& s.finished + white_count(s.state@) + stack.len() <= n
    &&& forall|v: int| 0 <= v < n ==> (#[trigger] s.state@[v]) <= 2
    &&& stack.no_duplicates()
    &&& forall|i: int|
        0 <= i < stack.len() ==> 0 <= #[trigger] stack[i] < n && s.state@[stack[i]] == 1 && stack[i]
            != target && stack[i] != forbidden
    &&& forall|i: int| 0 <= i < stack.len() - 1 ==> adj[#[trigger] stack[i]].contains(stack[i + 1])
    &&& forall|v: int| 0 <= v < n && (#[trigger] s.state@[v]) == 1 ==> stack.contains(v)
    &&& forall|v: int|
        0 <= v < n && (#[trigger] s.state@[v]) == 2 ==> v != target && v != forbidden && s.rank@[v]
            < s.finished
    &&& forall|v: int, fuel: nat|
        0 <= v < n && s.state@[v] == 2 && fuel > s.rank@[v] ==> #[trigger] ways(
            adj,
            v,
            target,
            forbidden,
            fuel,
        ) == s.memo@[v]
    &&& forall|v: int, k: int|
        0 <= v < n && s.state@[v] == 2 && 0 <= k < adj[v].len() ==> #[trigger] done_before(
            s,
            v,
            adj[v][k],
            target,
            forbidden,
        )
}

proof fn lemma_over_monotone(
    adj: Seq<Seq<int>>,
    node: int,
    k: int,
    upto: int,
    target: int,
    forbidden: int,
    fuel: nat,
)
    requires
        0 <= node < adj.len(),
        0 <= k <= upto <= adj[node].len(),
    ensures
        ways_over(adj, node, k, target, forbidden, fuel) <= ways_over(
            adj,
            node,
            upto,
            target,
            forbidden,
            fuel,
        ),
    decreases upto - k,
{
    if k < upto {
        lemma_over_monotone(adj, node, k, upto - 1, target, forbidden, fuel);
        lemma_way_nonnegative(adj, adj[node][upto - 1], target, forbidden, fuel);
    }
}

proof fn lemma_way_nonnegative(adj: Seq<Seq<int>>, node: int, target: int, forbidden: int, fuel: nat)
    ensures
        ways(adj, node, target, forbidden, fuel) >= 0,
    decreases fuel, 0int,
{
    if node != target && node != forbidden && fuel > 0 && 0 <= node < adj.len() {
        lemma_over_nonnegative(
            adj,
            node,
            adj[node].len() as int,
            target,
            forbidden,
            (fuel - 1) as nat,
        );
    }
}

proof fn lemma_over_nonnegative(
    adj: Seq<Seq<int>>,
    node: int,
    k: int,
    target: int,
    forbidden: int,
    fuel: nat,
)
    ensures
        ways_over(adj, node, k, target, forbidden, fuel) >= 0,
    decreases fuel, 1int, k,
{
    if k > 0 && 0 <= node < adj.len() && k <= adj[node].len() {
        lemma_over_nonnegative(adj, node, k - 1, target, forbidden, fuel);
        lemma_way_nonnegative(adj, adj[node][k - 1], target, forbidden, fuel);
    }
}

/// With enough fuel the ways over settled nodes are their settled
/// counts.
proof fn lemma_settled_is_ways(
    adj: Seq<Seq<int>>,
    target: int,
    forbidden: int,
    s: Search,
    node: int,
    k: int,
    fuel: nat,
)
    requires
        inv(adj, target, forbidden, s),
        0 <= node < adj.len(),
        0 <= k <= adj[node].len(),
        fuel >= s.finished,
        forall|j: int| 0 <= j < k ==> is_settled(s, #[trigger] adj[node][j], target, forbidden),
    ensures
        ways_over(adj, node, k, target, forbidden, fuel) == settled_sum(
            adj,
            s.memo@,
            node,
            k,
            target,
            forbidden,
        ),
    decreases k,
{
    reveal(inv);
    if k > 0 {
        lemma_settled_is_ways(adj, target, forbidden, s, node, k - 1, fuel);
        let w = adj[node][k - 1];
        assert(is_settled(s, w, target, forbidden));
        if w != target && w != forbidden {
            assert(s.state@[w] == 2);
            assert(s.rank@[w] < s.finished);
            assert(ways(adj, w, target, forbidden, fuel) == s.memo@[w]);
        }
        assert(ways(adj, w, target, forbidden, fuel) == settled_value(
            s.memo@,
            w,
            target,
            forbidden,
        ));
        assert(ways_over(adj, node, k, target, forbidden, fuel) == ways_over(
            adj,
            node,
            k - 1,
            target,
            forbidden,
            fuel,
        ) + ways(adj, w, target, forbidden, fuel));
    }
}

/// The settled sums are the same where the settled counts are.
proof fn lemma_settled_same(
    adj: Seq<Seq<int>>,
    a: Seq<u64>,
    b: Seq<u64>,
    node: int,
    k: int,
    target: int,
    forbidden: int,
)
    requires
        forall|j: int|
            0 <= j < k ==> settled_value(a, #[trigger] adj[node][j], target, forbidden)
                == settled_value(b, adj[node][j], target, forbidden),
    ensures
        settled_sum(adj, a, node, k, target, forbidden) == settled_sum(
            adj,
            b,
            node,
            k,
            target,
            forbidden,
        ),
    decreases k,
{
    if k > 0 {
        lemma_settled_same(adj, a, b, node, k - 1, target, forbidden);
        assert(settled_value(a, adj[node][k - 1], target, forbidden) == settled_value(
            b,
            adj[node][k - 1],
            target,
            forbidden,
        ));
    }
}

/// The ways from the first node of the stack are at least the ways from
/// any node of the stack with as much less fuel as the node lies deeper.
proof fn lemma_stack_chain(adj: Seq<Seq<int>>, target: int, forbidden: int, s: Search, i: int)
    requires
        inv(adj, target, forbidden, s),
        0 <= i < s.stack@.len(),
    ensures
        ways(adj, s.stack@[0], target, forbidden, adj.len()) >= ways(
            adj,
            s.stack@[i],
            target,
            forbidden,
            (adj.len() - i) as nat,
        ),
    decreases i,
{
    reveal(inv);
    if i > 0 {
        lemma_stack_chain(adj, target, forbidden, s, i - 1);
        let stack = s.stack@;
        let up = stack[i - 1];
        let fuel = (adj.len() - i) as nat;
        assert(adj[up].contains(stack[i - 1 + 1]));
        let k = choose|k: int| 0 <= k < adj[up].len() && adj[up][k] == stack[i];
        lemma_over_monotone(adj, up, k + 1, adj[up].len() as int, target, forbidden, fuel);
        lemma_over_nonnegative(adj, up, k, target, forbidden, fuel);
        assert(ways(adj, up, target, forbidden, (fuel + 1) as nat) == ways_over(
            adj,
            up,
            adj[up].len() as int,
            target,
            forbidden,
            fuel,
        ));
    }
}

/// The vectors of a search are as long as the graph has nodes.
proof fn lemma_sizes(adj: Seq<Seq<int>>, target: int, forbidden: int, s: Search)
    requires
        inv(adj, target, forbidden, s),
    ensures
        s.state@.len() == adj.len(),
        s.memo@.len() == adj.len(),
        s.rank@.len() == adj.len(),
        s.finished + s.stack@.len() <= adj.len(),
        forall|v: int| 0 <= v < adj.len() ==> (#[trigger] s.state@[v]) <= 2,
{
    reveal(inv);
}

/// A node that the search comes back to while it is open ends a walk
/// from the first node of the stack that has passed it.
proof fn lemma_cycle(adj: Seq<Seq<int>>, target: int, forbidden: int, s: Search, node: int)
    requires
        inv(adj, target, forbidden, s),
        0 <= node < adj.len(),
        s.state@[node] == 1,
        s.stack@.len() > 0 ==> adj[s.stack@.last()].contains(node),
    ensures
        s.stack@.len() > 0,
        has_cycle(adj, s.stack@[0], target, forbidden),
{
    reveal(inv);
    let stack = s.stack@;
    assert(stack.contains(node));
    let j = choose|j: int| 0 <= j < stack.len() && stack[j] == node;
    let walk = stack.push(node);
    assert(is_walk(adj, walk, target, forbidden)) by {
        assert forall|i: int| 0 <= i < walk.len() - 1 implies 0 <= #[trigger] walk[i] < adj.len()
            && walk[i] != target && walk[i] != forbidden && adj[walk[i]].contains(walk[i + 1]) by {
            assert(walk[i] == stack[i]);
            if i < walk.len() - 2 {
                assert(walk[i + 1] == stack[i + 1]);
                assert(adj[stack[i]].contains(stack[i + 1]));
            }
        }
    }
    assert(walk[0] == stack[0] && walk[j] == walk[walk.len() - 1]);
}

/// A walk from a node that the search is done with passes only nodes
/// that it is done with, each before the one that led to it.
proof fn lemma_walk_done(
    adj: Seq<Seq<int>>,
    target: int,
    forbidden: int,
    s: Search,
    walk: Seq<int>,
    i: int,
)
    requires
        inv(adj, target, forbidden, s),
        is_walk(adj, walk, target, forbidden),
        0 <= i < walk.len() - 1,
        s.state@[walk[0]] == 2,
    ensures
        s.state@[walk[i]] == 2,
        forall|j: int| 0 <= j < i ==> s.rank@[walk[i]] < s.rank@[#[trigger] walk[j]],
        done_before(s, walk[i], walk[i + 1], target, forbidden),
    decreases i,
{
    reveal(inv);
    if i > 0 {
        lemma_walk_done(adj, target, forbidden, s, walk, i - 1);
        assert(walk[i - 1 + 1] == walk[i]);
    }
    let v = walk[i];
    assert(0 <= v < adj.len() && adj[v].contains(walk[i + 1]));
    let k = choose|k: int| 0 <= k < adj[v].len() && adj[v][k] == walk[i + 1];
    assert(done_before(s, v, adj[v][k], target, forbidden));
}

/// No walk from a node that the search is done with comes back to a node
/// that it has passed.
proof fn lemma_no_cycle(adj: Seq<Seq<int>>, target: int, forbidden: int, s: Search, node: int)
    requires
        inv(adj, target, forbidden, s),
        is_settled(s, node, target, forbidden),
    ensures
        !has_cycle(adj, node, target, forbidden),
{
    if has_cycle(adj, node, target, forbidden) {
        let (walk, j) = choose|walk: Seq<int>, j: int|
            #[trigger] is_walk(adj, walk, target, forbidden) && walk[0] == node && 0 <= j
                < walk.len() - 1 && #[trigger] walk[j] == walk[walk.len() - 1];
        let last = walk.len() - 2;
        assert(walk[0] != target && walk[0] != forbidden);
        lemma_walk_done(adj, target, forbidden, s, walk, last);
        assert(walk[j] != target && walk[j] != forbidden);
        assert(walk[last + 1] == walk[j]);
        if j < last {
            assert(s.rank@[walk[last]] < s.rank@[walk[j]]);
        }
    }
}

/// The search may open a node that it has not come to.
proof fn lemma_open(
    adj: Seq<Seq<int>>,
    target: int,
    forbidden: int,
    before: Search,
    after: Search,
    node: int,
)
    requires
        inv(adj, target, forbidden, before),
        0 <= node < adj.len(),
        node != target,
        node != forbidden,
        before.state@[node] == 0,
        before.stack@.len() > 0 ==> adj[before.stack@.last()].contains(node),
        after.state@ == before.state@.update(node, 1u8),
        after.memo@ == before.memo@,
        after.rank@ == before.rank@,
        after.finished == before.finished,
        after.stack@ == before.stack@.push(node),
    ensures
        inv(adj, target, forbidden, after),
        white_count(after.state@) < white_count(before.state@),
{
    reveal(inv);
    lemma_white_update(before.state@, node, 1);
    let stack = after.stack@;
    let n = adj.len();
    assert(stack.no_duplicates()) by {
        assert forall|i: int, j: int|
            0 <= i < stack.len() && 0 <= j < stack.len() && i != j implies stack[i] != stack[j] by {
            if i < stack.len() - 1 {
                assert(before.state@[before.stack@[i]] == 1);
            }
            if j < stack.len() - 1 {
                assert(before.state@[before.stack@[j]] == 1);
            }
        }
    }
    assert forall|i: int| 0 <= i < stack.len() implies 0 <= #[trigger] stack[i] < n
        && after.state@[stack[i]] == 1 && stack[i] != target && stack[i] != forbidden by {
        if i < stack.len() - 1 {
            assert(stack[i] == before.stack@[i]);
        }
    }
    assert forall|i: int| 0 <= i < stack.len() - 1 implies adj[#[trigger] stack[i]].contains(
        stack[i + 1],
    ) by {
        if i < stack.len() - 2 {
            assert(stack[i] == before.stack@[i]);
            assert(adj[before.stack@[i]].contains(before.stack@[i + 1]));
        }
    }
    assert forall|v: int| 0 <= v < n && (#[trigger] after.state@[v]) == 1 implies stack.contains(
        v,
    ) by {
        if v == node {
            assert(stack[stack.len() - 1] == v);
        } else {
            assert(before.state@[v] == 1);
            let i = choose|i: int| 0 <= i < before.stack@.len() && before.stack@[i] == v;
            assert(stack[i] == v);
        }
    }
    assert forall|v: int| 0 <= v < n && (#[trigger] after.state@[v]) == 2 implies v != target && v
        != forbidden && after.rank@[v] < after.finished by {
        assert(before.state@[v] == 2);
    }
    assert forall|v: int, fuel: nat|
        0 <= v < n && after.state@[v] == 2 && fuel > after.rank@[v] implies #[trigger] ways(
        adj,
        v,
        target,
        forbidden,
        fuel,
    ) == after.memo@[v] by {
        assert(before.state@[v] == 2);
    }
    assert forall|v: int| 0 <= v < n implies (#[trigger] after.state@[v]) <= 2 by {
        assert(before.state@[v] <= 2);
    }
    assert forall|v: int, k: int|
        0 <= v < n && after.state@[v] == 2 && 0 <= k < adj[v].len() implies #[trigger] done_before(
        after,
        v,
        adj[v][k],
        target,
        forbidden,
    ) by {
        assert(before.state@[v] == 2);
        assert(done_before(before, v, adj[v][k], target, forbidden));
    }
}

/// The search is done with a node when all nodes that it leads to are
/// settled.
proof fn lemma_close(
    adj: Seq<Seq<int>>,
    target: int,
    forbidden: int,
    open: Search,
    after: Search,
    node: int,
    total: u64,
)
    requires
        inv(adj, target, forbidden, open),
        0 <= node < adj.len(),
        open.stack@.len() > 0,
        open.stack@.last() == node,
        forall|j: int|
            0 <= j < adj[node].len() ==> is_settled(open, #[trigger] adj[node][j], target, forbidden),
        total == settled_sum(adj, open.memo@, node, adj[node].len() as int, target, forbidden),
        after.state@ == open.state@.update(node, 2u8),
        after.memo@ == open.memo@.update(node, total),
        after.rank@ == open.rank@.update(node, open.finished as nat),
        after.finished == open.finished + 1,
        after.stack@ == open.stack@.drop_last(),
    ensures
        inv(adj, target, forbidden, after),
        white_count(after.state@) == white_count(open.state@),
        keeps_done(open, after, adj.len() as int),
{
    reveal(inv);
    let n = adj.len();
    let stack = after.stack@;
    let top = open.stack@.len() - 1;
    assert(open.stack@[top] == node);
    assert(open.state@[node] == 1);
    lemma_white_update(open.state@, node, 2);
    assert forall|i: int| 0 <= i < stack.len() implies 0 <= #[trigger] stack[i] < n
        && after.state@[stack[i]] == 1 && stack[i] != target && stack[i] != forbidden by {
        assert(stack[i] == open.stack@[i]);
        if stack[i] == node {
            assert(open.stack@[i] != open.stack@[top]);
        }
    }
    assert forall|i: int| 0 <= i < stack.len() - 1 implies adj[#[trigger] stack[i]].contains(
        stack[i + 1],
    ) by {
        assert(adj[open.stack@[i]].contains(open.stack@[i + 1]));
    }
    assert forall|v: int| 0 <= v < n && (#[trigger] after.state@[v]) == 1 implies stack.contains(
        v,
    ) by {
        assert(open.state@[v] == 1);
        let i = choose|i: int| 0 <= i < open.stack@.len() && open.stack@[i] == v;
        assert(stack[i] == v);
    }
    assert forall|v: int| 0 <= v < n && (#[trigger] after.state@[v]) == 2 implies v != target && v
        != forbidden && after.rank@[v] < after.finished by {
        if v != node {
            assert(open.state@[v] == 2);
        }
    }
    assert forall|v: int| 0 <= v < n implies (#[trigger] after.state@[v]) <= 2 by {
        assert(open.state@[v] <= 2);
    }
    assert forall|v: int, fuel: nat|
        0 <= v < n && after.state@[v] == 2 && fuel > after.rank@[v] implies #[trigger] ways(
        adj,
        v,
        target,
        forbidden,
        fuel,
    ) == after.memo@[v] by {
        if v == node {
            let less = (fuel - 1) as nat;
            lemma_settled_is_ways(
                adj,
                target,
                forbidden,
                open,
                node,
                adj[node].len() as int,
                less,
            );
        } else {
            assert(open.state@[v] == 2);
            assert(ways(adj, v, target, forbidden, fuel) == open.memo@[v]);
        }
    }
    assert forall|v: int, k: int|
        0 <= v < n && after.state@[v] == 2 && 0 <= k < adj[v].len() implies #[trigger] done_before(
        after,
        v,
        adj[v][k],
        target,
        forbidden,
    ) by {
        let w = adj[v][k];
        if v == node {
            assert(is_settled(open, adj[node][k], target, forbidden));
            if w != target && w != forbidden {
                assert(open.state@[w] == 2);
                assert(open.rank@[w] < open.finished);
            }
        } else {
            assert(open.state@[v] == 2);
            assert(done_before(open, v, adj[v][k], target, forbidden));
        }
    }
}

/// Counts the ways from `node` to the target. The counts of the nodes
/// passed are noted, so that no node is gone through twice.
fn visit(adj: &Vec<Vec<u16>>, node: u16, target: u16, forbidden: u16, s: &mut Search) -> (r: Result<
    u64,
    Error,
>)
    requires
        inv(adj_view(adj@), target as int, forbidden as int, *old(s)),
        node < adj.len(),
        forall|i: int, k: int|
            0 <= i < adj.len() && 0 <= k < adj[i].len() ==> (#[trigger] adj[i][k]) < adj.len(),
        old(s).stack@.len() > 0 ==> adj_view(adj@)[old(s).stack@.last()].contains(node as int),
    ensures
        white_count(final(s).state@) <= white_count(old(s).state@),
        match r {
            Ok(c) => {
                &&& inv(adj_view(adj@), target as int, forbidden as int, *final(s))
                &&& final(s).stack@ == old(s).stack@
                &&& final(s).finished >= old(s).finished
                &&& is_settled(*final(s), node as int, target as int, forbidden as int)
                &&& c == settled_value(final(s).memo@, node as int, target as int, forbidden as int)
                &&& keeps_done(*old(s), *final(s), adj.len() as int)
            },
            Err(Error::Cycle) => has_cycle(
                adj_view(adj@),
                if old(s).stack@.len() > 0 { old(s).stack@[0] } else { node as int },
                target as int,
                forbidden as int,
            ),
            Err(Error::Overflow) => ways(
                adj_view(adj@),
                if old(s).stack@.len() > 0 { old(s).stack@[0] } else { node as int },
                target as int,
                forbidden as int,
                adj.len() as nat,
            ) > u64::MAX,
            Err(_) => false,
        },
    decreases white_count(old(s).state@),
{
    let ghost graph = adj_view(adj@);
    let ghost t = target as int;
    let ghost f = forbidden as int;
    if node == target {
        return Ok(1);
    }
    if node == forbidden {
        return Ok(0);
    }
    let at: usize = node as usize;
    proof {
        lemma_sizes(graph, t, f, *s);
        assert(graph.len() == adj.len());
    }
    if s.state[at] == 2 {
        return Ok(s.memo[at]);
    }
    if s.state[at] == 1 {
        proof {
            lemma_cycle(graph, t, f, *s, node as int);
        }
        return Err(Error::Cycle);
    }
    let ghost before = *s;
    s.state[at] = 1;
    proof {
        s.stack = Ghost(before.stack@.push(node as int));
        lemma_open(graph, t, f, before, *s, node as int);
    }
    let mut total: u64 = 0;
    let mut k: usize = 0;
    let count: usize = adj[at].len();
    while k < count
        invariant
            k <= count,
            count == adj[at as int].len(),
            count == graph[node as int].len(),
            at == node,
            at < adj.len(),
            graph == adj_view(adj@),
            t == target as int,
            f == forbidden as int,
            forall|i: int, j: int|
                0 <= i < adj.len() && 0 <= j < adj[i].len() ==> (#[trigger] adj[i][j]) < adj.len(),
            inv(graph, t, f, *s),
            before == *old(s),
            s.stack@ == before.stack@.push(node as int),
            white_count(s.state@) < white_count(before.state@),
            s.finished >= before.finished,
            total == settled_sum(graph, s.memo@, node as int, k as int, t, f),
            forall|j: int| 0 <= j < k ==> is_settled(*s, #[trigger] graph[node as int][j], t, f),
            keeps_done(before, *s, adj.len() as int),
        decreases count - k,
    {
        let child: u16 = adj[at][k];
        let ghost mid = *s;
        proof {
            assert(s.stack@.last() == node);
            assert(graph[at as int][k as int] == child);
            assert(graph[s.stack@.last()].contains(child as int));
        }
        let found = match visit(adj, child, target, forbidden, s) {
            Ok(found) => found,
            Err(e) => {
                proof {
                    assert(mid.stack@[0] == if before.stack@.len() > 0 {
                        before.stack@[0]
                    } else {
                        node as int
                    });
                }
                return Err(e);
            },
        };
        proof {
            lemma_step(graph, t, f, before, mid, *s, node as int, k as int, total, found);
        }
        total = match total.checked_add(found) {
            Some(sum) => sum,
            None => {
                proof {
                    lemma_overflow(graph, t, f, *s, node as int, k as int + 1);
                    assert(s.stack@[0] == if before.stack@.len() > 0 {
                        before.stack@[0]
                    } else {
                        node as int
                    });
                }
                return Err(Error::Overflow);
            },
        };
        k += 1;
    }
    let ghost open = *s;
    proof {
        lemma_sizes(graph, t, f, *s);
    }
    s.state[at] = 2;
    s.memo[at] = total;
    s.finished = s.finished + 1;
    proof {
        s.rank = Ghost(open.rank@.update(at as int, open.finished as nat));
        s.stack = Ghost(before.stack@);
        assert(open.stack@.drop_last() =~= before.stack@);
        lemma_close(graph, t, f, open, *s, node as int, total);
        lemma_keeps_done(before, open, *s, adj.len() as int);
    }
    Ok(total)
}

/// What the search knows after it went through one more of the nodes
/// that `node` leads to.
proof fn lemma_step(
    adj: Seq<Seq<int>>,
    target: int,
    forbidden: int,
    before: Search,
    mid: Search,
    after: Search,
    node: int,
    k: int,
    total: u64,
    found: u64,
)
    requires
        inv(adj, target, forbidden, mid),
        inv(adj, target, forbidden, after),
        0 <= node < adj.len(),
        0 <= k < adj[node].len(),
        total == settled_sum(adj, mid.memo@, node, k, target, forbidden),
        forall|j: int| 0 <= j < k ==> is_settled(mid, #[trigger] adj[node][j], target, forbidden),
        is_settled(after, adj[node][k], target, forbidden),
        found == settled_value(after.memo@, adj[node][k], target, forbidden),
        keeps_done(mid, after, adj.len() as int),
        keeps_done(before, mid, adj.len() as int),
    ensures
        total + found == settled_sum(adj, after.memo@, node, k + 1, target, forbidden),
        forall|j: int| 0 <= j < k + 1 ==> is_settled(after, #[trigger] adj[node][j], target, forbidden),
        keeps_done(before, after, adj.len() as int),
{
    lemma_sizes(adj, target, forbidden, mid);
    lemma_sizes(adj, target, forbidden, after);
    assert forall|j: int| 0 <= j < k implies settled_value(
        mid.memo@,
        #[trigger] adj[node][j],
        target,
        forbidden,
    ) == settled_value(after.memo@, adj[node][j], target, forbidden) by {
        let w = adj[node][j];
        assert(is_settled(mid, w, target, forbidden));
        if w != target && w != forbidden {
            assert(mid.state@[w] == 2);
            assert(after.state@[w] == 2);
            assert(after.memo@[w] == mid.memo@[w]);
        }
    }
    lemma_settled_same(adj, mid.memo@, after.memo@, node, k, target, forbidden);
    assert forall|j: int| 0 <= j < k + 1 implies is_settled(
        after,
        #[trigger] adj[node][j],
        target,
        forbidden,
    ) by {
        if j < k {
            let w = adj[node][j];
            assert(is_settled(mid, w, target, forbidden));
            if w != target && w != forbidden {
                assert(mid.state@[w] == 2);
                assert(after.state@[w] == 2);
            }
        }
    }
    lemma_keeps_done(before, mid, after, adj.len() as int);
}

/// The ways from the first node of the stack are at least the settled
/// counts that the search has added up for the last node of the stack.
proof fn lemma_overflow(
    adj: Seq<Seq<int>>,
    target: int,
    forbidden: int,
    s: Search,
    node: int,
    k: int,
)
    requires
        inv(adj, target, forbidden, s),
        s.stack@.len() > 0,
        s.stack@.last() == node,
        0 <= k <= adj[node].len(),
        forall|j: int| 0 <= j < k ==> is_settled(s, #[trigger] adj[node][j], target, forbidden),
    ensures
        ways(adj, s.stack@[0], target, forbidden, adj.len()) >= settled_sum(
            adj,
            s.memo@,
            node,
            k,
            target,
            forbidden,
        ),
{
    reveal(inv);
    let depth = s.stack@.len() - 1;
    assert(s.stack@[depth] == node);
    lemma_white_bound(s.state@);
    let fuel = (adj.len() - depth - 1) as nat;
    lemma_stack_chain(adj, target, forbidden, s, depth);
    lemma_settled_is_ways(adj, target, forbidden, s, node, k, fuel);
    lemma_over_monotone(adj, node, k, adj[node].len() as int, target, forbidden, fuel);
    assert(ways(adj, node, target, forbidden, (fuel + 1) as nat) == ways_over(
        adj,
        node,
        adj[node].len() as int,
        target,
        forbidden,
        fuel,
    ));
}

/// Counts the ways from `node` to `target` that do not pass `forbidden`.
pub fn count_paths_to(graph: &Graph, node: u16, target: u16, forbidden: u16) -> (r: Result<
    u64,
    Error,
>)
    requires
        graph.wf(),
        node < graph.adj.len(),
    ensures
        match r {
            Ok(c) => !has_cycle(graph@.adj, node as int, target as int, forbidden as int) && c
                == ways(
                graph@.adj,
                node as int,
                target as int,
                forbidden as int,
                graph.adj.len() as nat,
            ),
            Err(Error::Cycle) => has_cycle(graph@.adj, node as int, target as int, forbidden as int),
            Err(Error::Overflow) => ways(
                graph@.adj,
                node as int,
                target as int,
                forbidden as int,
                graph.adj.len() as nat,
            ) > u64::MAX,
            Err(_) => false,
        },
{
    let n: usize = graph.adj.len();
    let mut s = Search {
        state: vec![0u8; n],
        memo: vec![0u64; n],
        finished: 0,
        rank: Ghost(Seq::new(n as nat, |i: int| 0nat)),
        stack: Ghost(Seq::empty()),
    };
    proof {
        lemma_white_bound(s.state@);
        reveal(inv);
        assert(inv(graph@.adj, target as int, forbidden as int, s));
    }
    let r = visit(&graph.adj, node, target, forbidden, &mut s);
    proof {
        reveal(inv);
        if r is Ok {
            lemma_no_cycle(graph@.adj, target as int, forbidden as int, s, node as int);
        }
    }
    r
}

/// The ways from one node to another that pass no forbidden node.
pub open spec fn ways_between(adj: Seq<Seq<int>>, from: u16, to: u16, forbidden: u16) -> int {
    ways(adj, from as int, to as int, forbidden as int, adj.len())
}

/// The ways from `svr` to `out` that pass `dac` and then `fft`.
pub open spec fn dac_first(adj: Seq<Seq<int>>) -> int {
    ways_between(adj, SVR_ID, DAC_ID, FFT_ID) * ways_between(adj, DAC_ID, FFT_ID, NO_NODE)
        * ways_between(adj, FFT_ID, OUT_ID, NO_NODE)
}

/// The ways from `svr` to `out` that pass `fft` and then `dac`.
pub open spec fn fft_first(adj: Seq<Seq<int>>) -> int {
    ways_between(adj, SVR_ID, FFT_ID, DAC_ID) * ways_between(adj, FFT_ID, DAC_ID, NO_NODE)
        * ways_between(adj, DAC_ID, OUT_ID, NO_NODE)
}

/// The ways from one node to another cannot be counted: some walk comes
/// back to a node that it has passed.
pub open spec fn cycle_between(adj: Seq<Seq<int>>, from: u16, to: u16, forbidden: u16) -> bool {
    has_cycle(adj, from as int, to as int, forbidden as int)
}

/// Some ways on the way to the second answer cannot be counted.
pub open spec fn through_cycle(adj: Seq<Seq<int>>) -> bool {
    ||| cycle_between(adj, SVR_ID, DAC_ID, FFT_ID)
    ||| cycle_between(adj, DAC_ID, FFT_ID, NO_NODE)
    ||| cycle_between(adj, FFT_ID, OUT_ID, NO_NODE)
    ||| cycle_between(adj, SVR_ID, FFT_ID, DAC_ID)
    ||| cycle_between(adj, FFT_ID, DAC_ID, NO_NODE)
    ||| cycle_between(adj, DAC_ID, OUT_ID, NO_NODE)
}

/// Some count on the way to the second answer does not fit in 64 bits.
pub open spec fn through_overflows(adj: Seq<Seq<int>>) -> bool {
    ||| ways_between(adj, SVR_ID, DAC_ID, FFT_ID) > u64::MAX
    ||| ways_between(adj, DAC_ID, FFT_ID, NO_NODE) > u64::MAX
    ||| ways_between(adj, FFT_ID, OUT_ID, NO_NODE) > u64::MAX
    ||| ways_between(adj, SVR_ID, DAC_ID, FFT_ID) * ways_between(adj, DAC_ID, FFT_ID, NO_NODE)
        > u64::MAX
    ||| dac_first(adj) > u64::MAX
    ||| ways_between(adj, SVR_ID, FFT_ID, DAC_ID) > u64::MAX
    ||| ways_between(adj, FFT_ID, DAC_ID, NO_NODE) > u64::MAX
    ||| ways_between(adj, DAC_ID, OUT_ID, NO_NODE) > u64::MAX
    ||| ways_between(adj, SVR_ID, FFT_ID, DAC_ID) * ways_between(adj, FFT_ID, DAC_ID, NO_NODE)
        > u64::MAX
    ||| fft_first(adj) > u64::MAX
    ||| dac_first(adj) + fft_first(adj) > u64::MAX
}

/// The product of three counts.
fn product(a: u64, b: u64, c: u64) -> (r: Option<u64>)
    ensures
        match r {
            Some(p) => p == a * b * c,
            None => a * b > u64::MAX || a * b * c > u64::MAX,
        },
{
    match a.checked_mul(b) {
        Some(ab) => ab.checked_mul(c),
        None => None,
    }
}

/// Counts the ways from `svr` to `out` that pass both `dac` and `fft`.
pub fn count_paths_through_both(graph: &Graph) -> (r: Result<u64, Error>)
    requires
        graph.wf(),
    ensures
        match r {
            Ok(count) => !through_cycle(graph@.adj) && count == dac_first(graph@.adj) + fft_first(
                graph@.adj,
            ),
            Err(Error::Cycle) => through_cycle(graph@.adj),
            Err(Error::Overflow) => through_overflows(graph@.adj),
            Err(_) => false,
        },
{
    let svr_to_dac = match count_paths_to(graph, SVR_ID, DAC_ID, FFT_ID) {
        Ok(c) => c,
        Err(e) => {
            return Err(e);
        },
    };
    let dac_to_fft = match count_paths_to(graph, DAC_ID, FFT_ID, NO_NODE) {
        Ok(c) => c,
        Err(e) => {
            return Err(e);
        },
    };
    let fft_to_out = match count_paths_to(graph, FFT_ID, OUT_ID, NO_NODE) {
        Ok(c) => c,
        Err(e) => {
            return Err(e);
        },
    };
    let first = match product(svr_to_dac, dac_to_fft, fft_to_out) {
        Some(p) => p,
        None => {
            return Err(Error::Overflow);
        },
    };
    let svr_to_fft = match count_paths_to(graph, SVR_ID, FFT_ID, DAC_ID) {
        Ok(c) => c,
        Err(e) => {
            return Err(e);
        },
    };
    let fft_to_dac = match count_paths_to(graph, FFT_ID, DAC_ID, NO_NODE) {
        Ok(c) => c,
        Err(e) => {
            return Err(e);
        },
    };
    let dac_to_out = match count_paths_to(graph, DAC_ID, OUT_ID, NO_NODE) {
        Ok(c) => c,
        Err(e) => {
            return Err(e);
        },
    };
    let second = match product(svr_to_fft, fft_to_dac, dac_to_out) {
        Some(p) => p,
        None => {
            return Err(Error::Overflow);
        },
    };
    match first.checked_add(second) {
        Some(sum) => Ok(sum),
        None => Err(Error::Overflow),
    }
}

/// What holds of the first answer for a text.
pub open spec fn part1_holds(input: &str, r: Result<u64, Error>) -> bool {
    match spec_parse_graph(input.spec_bytes()) {
        Err(e) => r == Err::<u64, Error>(e),
        Ok(graph) => match r {
            Ok(count) => !cycle_between(graph.adj, YOU_ID, OUT_ID, NO_NODE) && count
                == ways_between(graph.adj, YOU_ID, OUT_ID, NO_NODE),
            Err(Error::Cycle) => cycle_between(graph.adj, YOU_ID, OUT_ID, NO_NODE),
            Err(Error::Overflow) => ways_between(graph.adj, YOU_ID, OUT_ID, NO_NODE) > u64::MAX,
            Err(_) => false,
        },
    }
}

/// Counts the ways from `you` to `out`.
pub fn part1(input: &str) -> (r: Result<u64, Error>)
    ensures
        part1_holds(input, r),
{
    let graph = match parse_graph(input.as_bytes()) {
        Ok(graph) => graph,
        Err(e) => {
            return Err(e);
        },
    };
    count_paths_to(&graph, YOU_ID, OUT_ID, NO_NODE)
}

/// What holds of the second answer for a text.
pub open spec fn part2_holds(input: &str, r: Result<u64, Error>) -> bool {
    match spec_parse_graph(input.spec_bytes()) {
        Err(e) => r == Err::<u64, Error>(e),
        Ok(graph) => match r {
            Ok(count) => !through_cycle(graph.adj) && count == dac_first(graph.adj) + fft_first(
                graph.adj,
            ),
            Err(Error::Cycle) => through_cycle(graph.adj),
            Err(Error::Overflow) => through_overflows(graph.adj),
            Err(_) => false,
        },
    }
}

/// Counts the ways from `svr` to `out` that pass both `dac` and `fft`.
pub fn part2(input: &str) -> (r: Result<u64, Error>)
    ensures
        part2_holds(input, r),
{
    let graph = match parse_graph(input.as_bytes()) {
        Ok(graph) => graph,
        Err(e) => {
            return Err(e);
        },
    };
    count_paths_through_both(&graph)
}

/// What holds of both answers for a text.
pub open spec fn both_holds(input: &str, r: Result<(u64, u64), Error>) -> bool {
    match spec_parse_graph(input.spec_bytes()) {
        Err(e) => r == Err::<(u64, u64), Error>(e),
        Ok(graph) => match r {
            Ok((first, second)) => !cycle_between(graph.adj, YOU_ID, OUT_ID, NO_NODE)
                && !through_cycle(graph.adj) && first == ways_between(
                graph.adj,
                YOU_ID,
                OUT_ID,
                NO_NODE,
            ) && second == dac_first(graph.adj) + fft_first(graph.adj),
            Err(Error::Cycle) => cycle_between(graph.adj, YOU_ID, OUT_ID, NO_NODE)
                || through_cycle(graph.adj),
            Err(Error::Overflow) => ways_between(graph.adj, YOU_ID, OUT_ID, NO_NODE) > u64::MAX
                || through_overflows(graph.adj),
            Err(_) => false,
        },
    }
}

/// Both answers.
pub fn both(input: &str) -> (r: Result<(u64, u64), Error>)
    ensures
        both_holds(input, r),
{
    let graph = match parse_graph(input.as_bytes()) {
        Ok(graph) => graph,
        Err(e) => {
            return Err(e);
        },
    };
    let first = match count_paths_to(&graph, YOU_ID, OUT_ID, NO_NODE) {
        Ok(c) => c,
        Err(e) => {
            return Err(e);
        },
    };
    let second = match count_paths_through_both(&graph) {
        Ok(c) => c,
        Err(e) => {
            return Err(e);
        },
    };
    Ok((first, second))
}

} // verus!
