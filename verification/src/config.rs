//! The stack set and its dependency graph: load-time validation
//! (reference integrity, acyclicity, the computed inverse relation)
//! and the ordering queries used by every lifecycle command.
use vstd::prelude::*;

verus! {

use vstd::string::StringExecFns;
use crate::error::Error;
use crate::text::clone_pairs;
use crate::text::clone_strings;

// ------------------------------------------------------------- data model
/// One deployable unit: a directory with its own service definition,
/// a display name, declared dependencies and extra environment.
pub struct Stack {
    /// Unique identifier, the entry's position in the configuration
    /// mapping; immutable once loaded.
    pub key: String,
    /// Display/project name; defaults to `key` when left empty.
    pub name: String,
    /// Optional override of the stack's directory under the base
    /// directory; when absent the key is used.
    pub directory: Option<String>,
    /// Optional list of definition-file paths.
    pub file: Option<Vec<String>>,
    /// Keys of the stacks that must be operated on first.
    pub dependencies: Vec<String>,
    /// Keys of the stacks that declared a dependency on this one;
    /// computed at load time, never authored.
    pub dependants: Vec<String>,
    /// Extra environment variables for processes run against this
    /// stack.
    pub environment: Vec<(String, String)>,
}

/// The mathematical value of a `Stack`: every string replaced by its
/// sequence of characters.
pub ghost struct StackView {
    pub key: Seq<char>,
    pub name: Seq<char>,
    pub directory: Option<Seq<char>>,
    pub file: Option<Seq<Seq<char>>>,
    pub dependencies: Seq<Seq<char>>,
    pub dependants: Seq<Seq<char>>,
    pub environment: Seq<(Seq<char>, Seq<char>)>,
}

impl View for Stack {
    type V = StackView;

    open spec fn view(&self) -> StackView {
        StackView {
            key: self.key@,
            name: self.name@,
            directory: self.directory.deep_view(),
            file: self.file.deep_view(),
            dependencies: self.dependencies.deep_view(),
            dependants: self.dependants.deep_view(),
            environment: self.environment.deep_view(),
        }
    }
}

impl DeepView for Stack {
    type V = StackView;

    open spec fn deep_view(&self) -> StackView {
        self.view()
    }
}

/// The resolved working directory of a stack: the explicit override
/// when one is set, the stack key otherwise, under `base`.
pub open spec fn resolved_directory(s: StackView, base: Seq<char>) -> Seq<char> {
    match s.directory {
        Some(d) => base + "/"@ + d,
        None => base + "/"@ + s.key,
    }
}

impl Stack {
    /// The working directory of this stack under `base`.
    pub fn directory(&self, base: &String) -> (r: String)
        ensures
            r@ == resolved_directory(self@, base@),
    {
        let mut r = base.clone();
        r.append("/");
        match &self.directory {
            Some(d) => r.append(d.as_str()),
            None => r.append(self.key.as_str()),
        }
        r
    }
}

impl Clone for Stack {
    /// A clone of a stack has the same mathematical value.
    fn clone(&self) -> (r: Self)
        ensures
            r@ == self@,
    {
        let file = match &self.file {
            Some(v) => Some(clone_strings(v)),
            None => None,
        };
        let r = Stack {
            key: self.key.clone(),
            name: self.name.clone(),
            directory: match &self.directory {
                Some(d) => Some(d.clone()),
                None => None,
            },
            file,
            dependencies: clone_strings(&self.dependencies),
            dependants: clone_strings(&self.dependants),
            environment: clone_pairs(&self.environment),
        };
        proof {
            assert(r@.directory =~= self@.directory);
            assert(r@.file =~~= self@.file);
            assert(r@.dependencies =~~= self@.dependencies);
            assert(r@.dependants =~~= self@.dependants);
            assert(r@.environment =~~= self@.environment);
        }
        r
    }
}

/// The process-wide configuration: read-only after a successful load.
pub struct Config {
    /// Root directory used to resolve relative stack directories.
    pub base_dir: String,
    /// The external program and its fixed leading arguments.
    pub command: Vec<String>,
    /// The stack set, ordered by key.
    pub stacks: Vec<Stack>,
    /// Base environment merged under every stack's own environment.
    pub environment: Vec<(String, String)>,
}

/// The mathematical value of a `Config`.
pub ghost struct ConfigView {
    pub base_dir: Seq<char>,
    pub command: Seq<Seq<char>>,
    pub stacks: Seq<StackView>,
    pub environment: Seq<(Seq<char>, Seq<char>)>,
}

impl View for Config {
    type V = ConfigView;

    open spec fn view(&self) -> ConfigView {
        ConfigView {
            base_dir: self.base_dir@,
            command: self.command.deep_view(),
            stacks: self.stacks.deep_view(),
            environment: self.environment.deep_view(),
        }
    }
}

// -------------------------------------------------------- graph structure
/// `i` is a position in the stack sequence.
pub open spec fn valid_idx(ss: Seq<StackView>, i: int) -> bool {
    0 <= i < ss.len()
}

/// Some stack carries the key `k`.
pub open spec fn has_key(ss: Seq<StackView>, k: Seq<char>) -> bool {
    exists|i: int| 0 <= i < ss.len() && (#[trigger] ss[i]).key == k
}

/// The stack at `i` declares the stack at `j` as a dependency.
pub open spec fn dep_edge(ss: Seq<StackView>, i: int, j: int) -> bool {
    valid_idx(ss, i) && valid_idx(ss, j) && ss[i].dependencies.contains(ss[j].key)
}

/// A walk along dependency edges, at least one stack long.
pub open spec fn is_dep_path(ss: Seq<StackView>, p: Seq<int>) -> bool {
    p.len() >= 1 && valid_idx(ss, p.first()) && forall|t: int|
        0 <= t < p.len() - 1 ==> dep_edge(ss, #[trigger] p[t], p[t + 1])
}

/// The stack at `j` can be reached from the stack at `i` by following
/// zero or more dependency edges.
pub open spec fn reaches(ss: Seq<StackView>, i: int, j: int) -> bool {
    exists|p: Seq<int>| #[trigger] is_dep_path(ss, p) && p.first() == i && p.last() == j
}

/// The edge from `i` to `j` lies on a dependency cycle.
pub open spec fn cycle_edge(ss: Seq<StackView>, i: int, j: int) -> bool {
    dep_edge(ss, i, j) && reaches(ss, j, i)
}

/// Some directed cycle exists among the declared dependencies.
pub open spec fn has_cycle(ss: Seq<StackView>) -> bool {
    exists|i: int, j: int| #[trigger] cycle_edge(ss, i, j)
}

/// `rank` witnesses that the dependency relation is acyclic: along
/// every edge the rank strictly decreases.
pub open spec fn rank_ok(ss: Seq<StackView>, rank: Seq<nat>) -> bool {
    rank.len() == ss.len() && forall|i: int, j: int|
        #[trigger] dep_edge(ss, i, j) ==> rank[j] < rank[i]
}

/// The dependency relation admits a rank function.
pub open spec fn acyclic(ss: Seq<StackView>) -> bool {
    exists|rank: Seq<nat>| #[trigger] rank_ok(ss, rank)
}

/// Every declared dependency names an existing stack.
pub open spec fn deps_valid(ss: Seq<StackView>) -> bool {
    forall|i: int, t: int|
        valid_idx(ss, i) && 0 <= t < ss[i].dependencies.len() ==> has_key(
            ss,
            #[trigger] ss[i].dependencies[t],
        )
}

/// `k` is declared as a dependency somewhere but is not a stack key.
pub open spec fn dangling_key(ss: Seq<StackView>, k: Seq<char>) -> bool {
    !has_key(ss, k) && exists|i: int|
        0 <= i < ss.len() && (#[trigger] ss[i]).dependencies.contains(k)
}

// ----------------------------------------------------------- key ordering
/// Strict lexicographic order on character sequences, by code point.
pub open spec fn lex_lt(a: Seq<char>, b: Seq<char>) -> bool
    decreases a.len(),
{
    if a.len() == 0 {
        b.len() > 0
    } else if b.len() == 0 {
        false
    } else if a.first() == b.first() {
        lex_lt(a.skip(1), b.skip(1))
    } else {
        (a.first() as u32) < (b.first() as u32)
    }
}

/// The stack keys appear in strictly ascending lexicographic order.
pub open spec fn keys_sorted(ss: Seq<StackView>) -> bool {
    forall|i: int, j: int| 0 <= i < j < ss.len() ==> #[trigger] lex_lt(ss[i].key, ss[j].key)
}

proof fn lemma_lex_lt_irrefl(a: Seq<char>)
    ensures
        !lex_lt(a, a),
    decreases a.len(),
{
    if a.len() > 0 {
        lemma_lex_lt_irrefl(a.skip(1));
    }
}

/// Strictly sorted keys are pairwise distinct.
pub proof fn lemma_sorted_keys_distinct(ss: Seq<StackView>)
    requires
        keys_sorted(ss),
    ensures
        forall|i: int, j: int|
            0 <= i < ss.len() && 0 <= j < ss.len() && i != j ==> (#[trigger] ss[i]).key != (
            #[trigger] ss[j]).key,
{
    assert forall|i: int, j: int|
        0 <= i < ss.len() && 0 <= j < ss.len() && i != j implies (#[trigger] ss[i]).key != (
    #[trigger] ss[j]).key by {
        if i < j {
            assert(lex_lt(ss[i].key, ss[j].key));
            if ss[i].key == ss[j].key {
                lemma_lex_lt_irrefl(ss[i].key);
            }
        } else {
            assert(lex_lt(ss[j].key, ss[i].key));
            if ss[i].key == ss[j].key {
                lemma_lex_lt_irrefl(ss[i].key);
            }
        }
    }
}

// ------------------------------------------------------ computed inverse
/// The keys of the stacks among the first `n` that declare the stack
/// at `i` as a dependency, in position order.
pub open spec fn dependant_keys_upto(ss: Seq<StackView>, i: int, n: int) -> Seq<Seq<char>>
    decreases n,
{
    if n <= 0 {
        Seq::empty()
    } else if dep_edge(ss, n - 1, i) {
        dependant_keys_upto(ss, i, n - 1).push(ss[n - 1].key)
    } else {
        dependant_keys_upto(ss, i, n - 1)
    }
}

/// The keys of all stacks that declare the stack at `i` as a
/// dependency, in position order.
pub open spec fn dependant_keys(ss: Seq<StackView>, i: int) -> Seq<Seq<char>> {
    dependant_keys_upto(ss, i, ss.len() as int)
}

/// Every stack's `dependants` field holds exactly the computed inverse
/// of the declared dependencies.
pub open spec fn dependants_exact(ss: Seq<StackView>) -> bool {
    forall|i: int| valid_idx(ss, i) ==> (#[trigger] ss[i]).dependants == dependant_keys(ss, i)
}

proof fn lemma_dependant_keys_upto_contains(ss: Seq<StackView>, i: int, n: int, k: Seq<char>)
    requires
        n <= ss.len(),
    ensures
        dependant_keys_upto(ss, i, n).contains(k) <==> exists|j: int|
            0 <= j < n && #[trigger] dep_edge(ss, j, i) && ss[j].key == k,
    decreases n,
{
    if n > 0 {
        lemma_dependant_keys_upto_contains(ss, i, n - 1, k);
        let prev = dependant_keys_upto(ss, i, n - 1);
        if dep_edge(ss, n - 1, i) {
            assert(dependant_keys_upto(ss, i, n) == prev.push(ss[n - 1].key));
            if prev.contains(k) || ss[n - 1].key == k {
                assert(prev.push(ss[n - 1].key).contains(k)) by {
                    if ss[n - 1].key == k {
                        assert(prev.push(ss[n - 1].key)[prev.len() as int] == k);
                    } else {
                        let t = choose|t: int| 0 <= t < prev.len() && prev[t] == k;
                        assert(prev.push(ss[n - 1].key)[t] == k);
                    }
                }
            }
            if prev.push(ss[n - 1].key).contains(k) {
                let t = choose|t: int|
                    0 <= t < prev.len() + 1 && #[trigger] prev.push(ss[n - 1].key)[t] == k;
                if t < prev.len() {
                    assert(prev.contains(k));
                }
            }
        }
    }
}

/// The computed `dependants` relation is exactly the inverse of the
/// declared `dependencies` relation: a stack lists another among its
/// dependants precisely when that other stack declared it as a
/// dependency.
pub proof fn lemma_dependants_inverse(ss: Seq<StackView>)
    requires
        keys_sorted(ss),
        dependants_exact(ss),
    ensures
        forall|i: int, j: int|
            valid_idx(ss, i) && valid_idx(ss, j) ==> ((#[trigger] ss[j]).dependants.contains(
                (#[trigger] ss[i]).key,
            ) <==> dep_edge(ss, i, j)),
{
    lemma_sorted_keys_distinct(ss);
    assert forall|i: int, j: int| valid_idx(ss, i) && valid_idx(ss, j) implies ((
    #[trigger] ss[j]).dependants.contains((#[trigger] ss[i]).key) <==> dep_edge(ss, i, j)) by {
        lemma_dependant_keys_upto_contains(ss, j, ss.len() as int, ss[i].key);
        if ss[j].dependants.contains(ss[i].key) {
            let w = choose|w: int|
                0 <= w < ss.len() && #[trigger] dep_edge(ss, w, j) && ss[w].key == ss[i].key;
            assert(w == i);
        }
        if dep_edge(ss, i, j) {
            assert(exists|w: int| 0 <= w < ss.len() && #[trigger] dep_edge(ss, w, j) && ss[w].key
                == ss[i].key) by {
                assert(dep_edge(ss, i, j) && ss[i].key == ss[i].key);
            }
        }
    }
}

// --------------------------------------------------- acyclicity and ranks
proof fn lemma_path_rank(ss: Seq<StackView>, rank: Seq<nat>, p: Seq<int>)
    requires
        rank_ok(ss, rank),
        is_dep_path(ss, p),
    ensures
        valid_idx(ss, p.last()),
        rank[p.last()] <= rank[p.first()],
        p.len() >= 2 ==> rank[p.last()] < rank[p.first()],
    decreases p.len(),
{
    if p.len() >= 2 {
        let q = p.skip(1);
        assert(dep_edge(ss, p[0], p[1]));
        assert(is_dep_path(ss, q)) by {
            assert(valid_idx(ss, q.first()));
            assert(forall|t: int|
                0 <= t < q.len() - 1 ==> dep_edge(ss, #[trigger] q[t], q[t + 1])) by {
                assert(forall|t: int|
                    0 <= t < q.len() - 1 ==> #[trigger] q[t] == p[t + 1] && q[t + 1] == p[t + 2]);
            }
        }
        lemma_path_rank(ss, rank, q);
        assert(q.last() == p.last());
    }
}

/// A rank function rules out every dependency cycle.
pub proof fn lemma_acyclic_no_cycle(ss: Seq<StackView>)
    requires
        acyclic(ss),
    ensures
        !has_cycle(ss),
{
    let rank = choose|rank: Seq<nat>| #[trigger] rank_ok(ss, rank);
    if has_cycle(ss) {
        let (i, j) = choose|i: int, j: int| #[trigger] cycle_edge(ss, i, j);
        assert(dep_edge(ss, i, j));
        let p = choose|p: Seq<int>| #[trigger] is_dep_path(ss, p) && p.first() == j && p.last()
            == i;
        lemma_path_rank(ss, rank, p);
        assert(rank[j] < rank[i]);
        assert(rank[i] <= rank[j]);
    }
}

// ----------------------------------------------------------- well-formed
impl ConfigView {
    /// Everything a successful load guarantees: a usable command
    /// template, keys in strict order, reference-valid and acyclic
    /// dependencies, and the computed inverse relation.
    pub open spec fn well_formed(self) -> bool {
        &&& self.command.len() >= 1
        &&& keys_sorted(self.stacks)
        &&& deps_valid(self.stacks)
        &&& acyclic(self.stacks)
        &&& dependants_exact(self.stacks)
    }
}

// ------------------------------------------------------------ key lookup
/// Finds the position of the stack whose key is `name`.
fn find_key(stacks: &Vec<Stack>, name: &String) -> (r: Option<usize>)
    ensures
        match r {
            Some(i) => i < stacks.len() && stacks.deep_view()[i as int].key == name@,
            None => !has_key(stacks.deep_view(), name@),
        },
{
    let ghost ss = stacks.deep_view();
    let mut i: usize = 0;
    while i < stacks.len()
        invariant
            i <= stacks.len(),
            ss == stacks.deep_view(),
            ss.len() == stacks.len(),
            forall|t: int| 0 <= t < i ==> (#[trigger] ss[t]).key != name@,
        decreases stacks.len() - i,
    {
        if stacks[i].key == *name {
            return Some(i);
        }
        i = i + 1;
    }
    None
}

// ------------------------------------------------------- the index graph
/// The dependency lists resolved to positions: row `i` holds, in
/// declaration order, the position of each dependency of the stack at
/// `i`.
spec fn g_matches(ss: Seq<StackView>, g: Seq<Seq<usize>>) -> bool {
    &&& g.len() == ss.len()
    &&& forall|i: int| 0 <= i < ss.len() ==> (#[trigger] g[i]).len() == ss[i].dependencies.len()
    &&& forall|i: int, t: int|
        0 <= i < ss.len() && 0 <= t < g[i].len() ==> (#[trigger] g[i][t]) < ss.len() && ss[g[i][t] as int].key
            == ss[i].dependencies[t]
}

/// The rows of the resolved index graph as sequences.
pub open spec fn graph_of(g: Vec<Vec<usize>>) -> Seq<Seq<usize>> {
    Seq::new(g@.len(), |i: int| g@[i]@)
}

/// An edge of the index graph.
spec fn edge_g(g: Seq<Seq<usize>>, i: int, j: int) -> bool {
    0 <= i < g.len() && exists|t: int| 0 <= t < g[i].len() && (#[trigger] g[i][t]) as int == j
}

proof fn lemma_edge_to_dep(ss: Seq<StackView>, g: Seq<Seq<usize>>, i: int, j: int)
    requires
        g_matches(ss, g),
        edge_g(g, i, j),
    ensures
        dep_edge(ss, i, j),
{
    let t = choose|t: int| 0 <= t < g[i].len() && (#[trigger] g[i][t]) as int == j;
    assert(ss[i].dependencies[t] == ss[j].key);
    assert(ss[i].dependencies.contains(ss[j].key));
}

proof fn lemma_dep_to_edge(ss: Seq<StackView>, g: Seq<Seq<usize>>, i: int, j: int)
    requires
        g_matches(ss, g),
        keys_sorted(ss),
        dep_edge(ss, i, j),
    ensures
        edge_g(g, i, j),
{
    lemma_sorted_keys_distinct(ss);
    let t = choose|t: int| 0 <= t < ss[i].dependencies.len() && ss[i].dependencies[t] == ss[j].key;
    assert(ss[g[i][t] as int].key == ss[j].key);
    assert(g[i][t] as int == j);
}

/// A sequence of distinct values below `n` has at most `n` elements.
proof fn lemma_distinct_bounded(s: Seq<usize>, n: int)
    requires
        s.no_duplicates(),
        forall|t: int| 0 <= t < s.len() ==> (#[trigger] s[t]) < n,
        n >= 0,
    ensures
        s.len() <= n,
{
    let si = s.map_values(|x: usize| x as int);
    assert(si.no_duplicates()) by {
        assert(forall|p: int, q: int|
            0 <= p < si.len() && 0 <= q < si.len() && p != q ==> #[trigger] si[p] != #[trigger] si[q])
            by {
            assert(forall|p: int, q: int|
                0 <= p < s.len() && 0 <= q < s.len() && p != q ==> #[trigger] s[p] != #[trigger] s[q]);
        }
    }
    si.unique_seq_to_set();
    vstd::set_lib::lemma_int_range(0, n);
    assert(si.to_set().subset_of(vstd::set_lib::set_int_range(0, n))) by {
        assert forall|x: int| si.to_set().contains(x) implies vstd::set_lib::set_int_range(
            0,
            n,
        ).contains(x) by {
            let q = choose|q: int| 0 <= q < si.len() && si[q] == x;
            assert(s[q] < n);
        }
    }
    vstd::set_lib::lemma_len_subset(si.to_set(), vstd::set_lib::set_int_range(0, n));
}

// -------------------------------------------------- depth-first traversal
/// `d` appears in `fin` strictly before position `pos`.
spec fn finished_before(fin: Seq<usize>, pos: int, d: usize) -> bool {
    exists|q: int| 0 <= q < pos && #[trigger] fin[q] == d
}

/// Every dependency of a finished node finished strictly earlier.
spec fn finish_ok(g: Seq<Seq<usize>>, fin: Seq<usize>) -> bool {
    forall|pos: int, t: int|
        0 <= pos < fin.len() && 0 <= t < g[fin[pos] as int].len() ==> finished_before(
            fin,
            pos,
            #[trigger] g[fin[pos] as int][t],
        )
}

/// The traversal state: `path` is the chain currently being explored,
/// `fin` the nodes finished in order, `done` the membership view of
/// `fin`.
spec fn dfs_ok(g: Seq<Seq<usize>>, path: Seq<usize>, fin: Seq<usize>, done: Seq<bool>) -> bool {
    &&& done.len() == g.len()
    &&& forall|t: int| 0 <= t < path.len() ==> (#[trigger] path[t]) < g.len()
    &&& forall|t: int| 0 <= t < fin.len() ==> (#[trigger] fin[t]) < g.len()
    &&& path.no_duplicates()
    &&& fin.no_duplicates()
    &&& forall|x: int| 0 <= x < g.len() ==> ((#[trigger] done[x]) <==> fin.contains(x as usize))
    &&& forall|t: int| 0 <= t < path.len() ==> !fin.contains(#[trigger] path[t])
    &&& forall|t: int|
        0 <= t < path.len() - 1 ==> #[trigger] edge_g(g, path[t] as int, path[t + 1] as int)
    &&& finish_ok(g, fin)
}

/// Finishing a node whose dependencies are all finished keeps the
/// finish order sound.
proof fn lemma_finish_ok_push(g: Seq<Seq<usize>>, fin: Seq<usize>, done: Seq<bool>, x: usize)
    requires
        finish_ok(g, fin),
        (x as int) < g.len(),
        done.len() == g.len(),
        forall|q: int| 0 <= q < g.len() ==> ((#[trigger] done[q]) <==> fin.contains(q as usize)),
        forall|t: int| 0 <= t < g[x as int].len() ==> done[(#[trigger] g[x as int][t]) as int],
        forall|t: int| 0 <= t < g[x as int].len() ==> (#[trigger] g[x as int][t]) < g.len(),
        !fin.contains(x),
    ensures
        finish_ok(g, fin.push(x)),
{
    let fin2 = fin.push(x);
    assert forall|pos: int, t2: int|
        0 <= pos < fin2.len() && 0 <= t2 < g[fin2[pos] as int].len() implies finished_before(
        fin2,
        pos,
        #[trigger] g[fin2[pos] as int][t2],
    ) by {
        if pos < fin.len() {
            assert(fin2[pos] == fin[pos]);
            assert(0 <= t2 < g[fin[pos] as int].len());
            assert(finished_before(fin, pos, g[fin[pos] as int][t2]));
            let q = choose|q: int| 0 <= q < pos && #[trigger] fin[q] == g[fin[pos] as int][t2];
            assert(fin2[q] == g[fin2[pos] as int][t2]);
        } else {
            assert(fin2[pos] == x);
            let dd = g[x as int][t2];
            assert(done[dd as int]);
            assert(fin.contains(dd));
            let q = choose|q: int| 0 <= q < fin.len() && #[trigger] fin[q] == dd;
            assert(fin2[q] == dd);
        }
    }
}

fn contains_usize(v: &Vec<usize>, x: usize) -> (r: bool)
    ensures
        r == v@.contains(x),
{
    let mut i: usize = 0;
    while i < v.len()
        invariant
            i <= v.len(),
            forall|t: int| 0 <= t < i ==> (#[trigger] v@[t]) != x,
        decreases v.len() - i,
    {
        if v[i] == x {
            return true;
        }
        i = i + 1;
    }
    false
}

/// Explores the stack at `i` depth first, finishing every stack it can
/// reach, and reports the first edge found to close a cycle.
fn visit(
    stacks: &Vec<Stack>,
    g: &Vec<Vec<usize>>,
    i: usize,
    path: &mut Vec<usize>,
    fin: &mut Vec<usize>,
    done: &mut Vec<bool>,
) -> (r: Result<(), Error>)
    requires
        g_matches(stacks.deep_view(), graph_of(*g)),
        dfs_ok(graph_of(*g), old(path)@, old(fin)@, old(done)@),
        i < g@.len(),
        !old(done)@[i as int],
        !old(path)@.contains(i),
        old(path)@.len() > 0 ==> edge_g(graph_of(*g), old(path)@.last() as int, i as int),
        old(path)@.len() <= g@.len(),
    ensures
        match r {
            Ok(_) => {
                &&& final(path)@ == old(path)@
                &&& dfs_ok(graph_of(*g), final(path)@, final(fin)@, final(done)@)
                &&& final(done)@.len() == old(done)@.len()
                &&& final(done)@[i as int]
                &&& forall|x: int|
                    0 <= x < old(done)@.len() && old(done)@[x] ==> (#[trigger] final(done)@[x])
                &&& old(fin)@.is_prefix_of(final(fin)@)
            },
            Err(e) => exists|ci: int, cj: int|
                #[trigger] cycle_edge(stacks.deep_view(), ci, cj) && e@ is DependencyCycle
                    && e@->DependencyCycle_from == stacks.deep_view()[ci].key
                    && e@->DependencyCycle_to == stacks.deep_view()[cj].key,
        },
    decreases g@.len() - old(path)@.len(),
{
    let ghost ss = stacks.deep_view();
    let ghost gv = graph_of(*g);
    let n = g.len();
    let ghost entry_path = path@;
    path.push(i);
    proof {
        assert(path@.no_duplicates());
        lemma_distinct_bounded(path@, gv.len() as int);
        assert(dfs_ok(gv, path@, fin@, done@)) by {
            assert(forall|t: int| 0 <= t < path@.len() - 1 ==> #[trigger] edge_g(
                gv,
                path@[t] as int,
                path@[t + 1] as int,
            )) by {
                assert(forall|t: int| 0 <= t < entry_path.len() ==> path@[t] == entry_path[t]);
            }
        }
    }
    let deps_len = g[i].len();
    let mut t: usize = 0;
    while t < deps_len
        invariant
            g_matches(ss, gv),
            ss == stacks.deep_view(),
            gv == graph_of(*g),
            dfs_ok(gv, path@, fin@, done@),
            i < gv.len(),
            t <= deps_len,
            deps_len == gv[i as int].len(),
            path@ == entry_path.push(i),
            entry_path == old(path)@,
            path@.len() <= gv.len(),
            done@.len() == gv.len(),
            forall|w: int| 0 <= w < t ==> done@[(#[trigger] gv[i as int][w]) as int],
            forall|x: int| 0 <= x < done@.len() && old(done)@[x] ==> (#[trigger] done@[x]),
            old(fin)@.is_prefix_of(fin@),
        decreases deps_len - t,
    {
        let d = g[i][t];
        assert(d < g.len());
        if !done[d] {
            if contains_usize(path, d) {
                let from = stacks[i].key.clone();
                let to = stacks[d].key.clone();
                proof {
                    let q = choose|q: int| 0 <= q < path@.len() && path@[q] == d;
                    let p = Seq::new((path@.len() - q) as nat, |w: int| path@[q + w] as int);
                    assert(is_dep_path(ss, p)) by {
                        assert(p.first() == d as int);
                        assert(valid_idx(ss, p.first()));
                        assert forall|w: int| 0 <= w < p.len() - 1 implies dep_edge(
                            ss,
                            #[trigger] p[w],
                            p[w + 1],
                        ) by {
                            assert(edge_g(gv, path@[q + w] as int, path@[q + w + 1] as int));
                            lemma_edge_to_dep(ss, gv, p[w], p[w + 1]);
                        }
                    }
                    assert(p.last() == i as int) by {
                        assert(path@.last() == i);
                    }
                    assert(edge_g(gv, i as int, d as int)) by {
                        assert(gv[i as int][t as int] == d);
                    }
                    lemma_edge_to_dep(ss, gv, i as int, d as int);
                    assert(reaches(ss, d as int, i as int));
                    assert(cycle_edge(ss, i as int, d as int));
                }
                return Err(Error::DependencyCycle { from, to });
            }
            let res = visit(stacks, g, d, path, fin, done);
            match res {
                Ok(_) => {},
                Err(e) => {
                    return Err(e);
                },
            }
        }
        t = t + 1;
    }
    let _ = path.pop();
    let ghost prev_fin = fin@;
    let ghost prev_done = done@;
    proof {
        assert(path@ =~= entry_path);
    }
    fin.push(i);
    done.set(i, true);
    proof {
        assert(fin@ == prev_fin.push(i));
        assert(!prev_fin.contains(i)) by {
            assert(!prev_done[i as int]);
        }
        assert(old(fin)@.is_prefix_of(fin@)) by {
            assert(old(fin)@ =~= fin@.subrange(0, old(fin)@.len() as int));
        }
        assert(fin@.no_duplicates()) by {
            assert forall|p: int, q: int|
                0 <= p < fin@.len() && 0 <= q < fin@.len() && p != q implies fin@[p] != fin@[q] by {
                if p < prev_fin.len() && q < prev_fin.len() {
                    assert(fin@[p] == prev_fin[p] && fin@[q] == prev_fin[q]);
                } else if p == prev_fin.len() {
                    assert(fin@[p] == i && fin@[q] == prev_fin[q]);
                } else {
                    assert(fin@[q] == i && fin@[p] == prev_fin[p]);
                }
            }
        }
        assert(forall|x: int|
            0 <= x < gv.len() ==> ((#[trigger] done@[x]) <==> fin@.contains(x as usize))) by {
            assert forall|x: int| 0 <= x < gv.len() implies ((#[trigger] done@[x])
                <==> fin@.contains(x as usize)) by {
                if x == i as int {
                    assert(fin@[fin@.len() - 1] == i);
                    assert(fin@.contains(i));
                } else {
                    if prev_fin.contains(x as usize) {
                        let q = choose|q: int| 0 <= q < prev_fin.len() && prev_fin[q] == x as usize;
                        assert(fin@[q] == x as usize);
                    }
                    if fin@.contains(x as usize) {
                        let q = choose|q: int| 0 <= q < fin@.len() && fin@[q] == x as usize;
                        assert(q < fin@.len() - 1) by {
                            if q == fin@.len() - 1 {
                                assert(fin@[q] == i);
                                assert(x as usize == i);
                                assert(gv.len() == n as int);
                                assert((x as usize) as int == x);
                            }
                        }
                        assert(prev_fin[q] == x as usize);
                        assert(prev_fin.contains(x as usize));
                    }
                }
            }
        }
        assert(finish_ok(gv, fin@)) by {
            lemma_finish_ok_push(gv, prev_fin, prev_done, i);
        }
        assert(forall|w: int| 0 <= w < path@.len() ==> !fin@.contains(#[trigger] path@[w])) by {
            assert forall|w: int| 0 <= w < path@.len() implies !fin@.contains(
                #[trigger] path@[w],
            ) by {
                assert(path@[w] == entry_path[w]);
                assert(entry_path.push(i).no_duplicates());
                assert(entry_path.push(i)[w] == entry_path[w]);
                assert(entry_path.push(i).last() == i);
                assert(path@[w] != i);
                assert(!prev_fin.contains(entry_path.push(i)[w]));
                if fin@.contains(path@[w]) {
                    let q = choose|q: int| 0 <= q < fin@.len() && fin@[q] == path@[w];
                    assert(q < fin@.len() - 1);
                    assert(prev_fin.contains(path@[w]));
                }
            }
        }
        assert(dfs_ok(gv, path@, fin@, done@));
    }
    Ok(())
}

/// The position of `x` in the finish order.
spec fn fin_pos(fin: Seq<usize>, x: int) -> int {
    choose|q: int| 0 <= q < fin.len() && #[trigger] fin[q] == x as usize
}

/// Validates the dependency relation of the whole stack set: reports
/// an edge on a cycle if one exists, and otherwise certifies that the
/// relation is acyclic.
fn check_graph(stacks: &Vec<Stack>, g: &Vec<Vec<usize>>) -> (r: Result<(), Error>)
    requires
        g_matches(stacks.deep_view(), graph_of(*g)),
        keys_sorted(stacks.deep_view()),
    ensures
        match r {
            Ok(_) => acyclic(stacks.deep_view()),
            Err(e) => exists|ci: int, cj: int|
                #[trigger] cycle_edge(stacks.deep_view(), ci, cj) && e@ is DependencyCycle
                    && e@->DependencyCycle_from == stacks.deep_view()[ci].key
                    && e@->DependencyCycle_to == stacks.deep_view()[cj].key,
        },
{
    let ghost ss = stacks.deep_view();
    let ghost gv = graph_of(*g);
    let n = g.len();
    let mut path: Vec<usize> = Vec::new();
    let mut fin: Vec<usize> = Vec::new();
    let mut done: Vec<bool> = vec![false; n];
    proof {
        assert(forall|x: int| 0 <= x < n ==> !(#[trigger] done@[x]));
        assert(dfs_ok(gv, path@, fin@, done@));
    }
    let mut i: usize = 0;
    while i < n
        invariant
            gv == graph_of(*g),
            ss == stacks.deep_view(),
            g_matches(ss, gv),
            keys_sorted(ss),
            n == gv.len(),
            i <= n,
            dfs_ok(gv, path@, fin@, done@),
            path@.len() == 0,
            done@.len() == n,
            forall|x: int| 0 <= x < i ==> (#[trigger] done@[x]),
        decreases n - i,
    {
        if !done[i] {
            let res = visit(stacks, g, i, &mut path, &mut fin, &mut done);
            match res {
                Ok(_) => {},
                Err(e) => {
                    return Err(e);
                },
            }
        }
        i = i + 1;
    }
    proof {
        assert(ss.len() == n);
        assert forall|x: int| 0 <= x < n implies #[trigger] fin@.contains(x as usize) by {
            assert(done@[x]);
        }
        let rank = Seq::<nat>::new(n as nat, |x: int| fin_pos(fin@, x) as nat);
        assert(rank_ok(ss, rank)) by {
            assert forall|a: int, b: int| #[trigger] dep_edge(ss, a, b) implies rank[b]
                < rank[a] by {
                lemma_dep_to_edge(ss, gv, a, b);
                let t = choose|t: int| 0 <= t < gv[a].len() && (#[trigger] gv[a][t]) as int == b;
                assert(fin@.contains(a as usize));
                let p = fin_pos(fin@, a);
                assert(0 <= p < fin@.len() && fin@[p] == a as usize) by {
                    let w = choose|w: int| 0 <= w < fin@.len() && #[trigger] fin@[w] == a as usize;
                    assert(0 <= w < fin@.len() && fin@[w] == a as usize);
                }
                assert(gv[fin@[p] as int][t] == b as usize) by {
                    assert((a as usize) as int == a);
                }
                assert(finished_before(fin@, p, gv[fin@[p] as int][t]));
                let q = choose|q: int| 0 <= q < p && #[trigger] fin@[q] == b as usize;
                let pb = fin_pos(fin@, b);
                assert(0 <= pb < fin@.len() && fin@[pb] == b as usize) by {
                    assert(fin@.contains(b as usize));
                    let w = choose|w: int| 0 <= w < fin@.len() && #[trigger] fin@[w] == b as usize;
                    assert(0 <= w < fin@.len() && fin@[w] == b as usize);
                }
                assert(pb == q) by {
                    assert(fin@[pb] == fin@[q]);
                }
                assert(rank[b] == pb as nat && rank[a] == p as nat);
            }
        }
        assert(acyclic(ss));
    }
    Ok(())
}

/// Resolves every declared dependency to its position in the stack
/// set, reporting the first dependency that names no existing stack.
fn resolve_deps(stacks: &Vec<Stack>) -> (r: Result<Vec<Vec<usize>>, Error>)
    ensures
        match r {
            Ok(g) => g_matches(stacks.deep_view(), graph_of(g)) && deps_valid(stacks.deep_view()),
            Err(e) => e@ is DanglingDependency && dangling_key(
                stacks.deep_view(),
                e@->DanglingDependency_key,
            ),
        },
{
    let ghost ss = stacks.deep_view();
    let n = stacks.len();
    let mut g: Vec<Vec<usize>> = Vec::new();
    let mut i: usize = 0;
    while i < n
        invariant
            ss == stacks.deep_view(),
            n == ss.len(),
            i <= n,
            g@.len() == i,
            forall|a: int| 0 <= a < i ==> (#[trigger] g@[a]@).len() == ss[a].dependencies.len(),
            forall|a: int, t: int|
                0 <= a < i && 0 <= t < g@[a]@.len() ==> (#[trigger] g@[a]@[t]) < n
                    && ss[g@[a]@[t] as int].key == ss[a].dependencies[t],
        decreases n - i,
    {
        let deps = &stacks[i].dependencies;
        let mut row: Vec<usize> = Vec::new();
        let mut t: usize = 0;
        while t < deps.len()
            invariant
                ss == stacks.deep_view(),
                n == ss.len(),
                i < n,
                t <= deps.len(),
                deps == &stacks[i as int].dependencies,
                deps@.len() == ss[i as int].dependencies.len(),
                forall|w: int|
                    0 <= w < deps@.len() ==> (#[trigger] deps@[w])@ == ss[i as int].dependencies[w],
                row@.len() == t,
                forall|w: int|
                    0 <= w < t ==> (#[trigger] row@[w]) < n && ss[row@[w] as int].key == ss[i as int].dependencies[w],
            decreases deps.len() - t,
        {
            match find_key(stacks, &deps[t]) {
                Some(j) => {
                    row.push(j);
                },
                None => {
                    proof {
                        assert(ss[i as int].dependencies.contains(deps@[t as int]@)) by {
                            assert(ss[i as int].dependencies[t as int] == deps@[t as int]@);
                        }
                    }
                    return Err(Error::DanglingDependency { key: deps[t].clone() });
                },
            }
            t = t + 1;
        }
        g.push(row);
        i = i + 1;
    }
    proof {
        assert(g_matches(ss, graph_of(g)));
        assert(deps_valid(ss)) by {
            assert forall|a: int, t: int|
                valid_idx(ss, a) && 0 <= t < ss[a].dependencies.len() implies has_key(
                ss,
                #[trigger] ss[a].dependencies[t],
            ) by {
                let j = g@[a]@[t];
                assert(ss[j as int].key == ss[a].dependencies[t]);
            }
        }
    }
    Ok(g)
}

// ------------------------------------------------------------- congruence
/// Two stack sequences with the same keys and declared dependencies
/// describe the same graph.
pub open spec fn same_graph(a: Seq<StackView>, b: Seq<StackView>) -> bool {
    a.len() == b.len() && forall|i: int|
        0 <= i < a.len() ==> (#[trigger] a[i]).key == b[i].key && a[i].dependencies
            == b[i].dependencies
}

proof fn lemma_same_graph(a: Seq<StackView>, b: Seq<StackView>)
    requires
        same_graph(a, b),
    ensures
        forall|i: int, j: int|
            #![trigger dep_edge(a, i, j)]
            #![trigger dep_edge(b, i, j)]
            dep_edge(a, i, j) == dep_edge(b, i, j),
        forall|k: Seq<char>|
            #![trigger has_key(a, k)]
            #![trigger has_key(b, k)]
            has_key(a, k) == has_key(b, k),
        forall|i: int, j: int|
            #![trigger cycle_edge(a, i, j)]
            #![trigger cycle_edge(b, i, j)]
            cycle_edge(a, i, j) == cycle_edge(b, i, j),
        has_cycle(a) == has_cycle(b),
        acyclic(a) == acyclic(b),
        deps_valid(a) == deps_valid(b),
        forall|k: Seq<char>|
            #![trigger dangling_key(a, k)]
            #![trigger dangling_key(b, k)]
            dangling_key(a, k) == dangling_key(b, k),
        keys_sorted(a) == keys_sorted(b),
{
    assert forall|i: int, j: int|
        #![trigger dep_edge(a, i, j)]
        #![trigger dep_edge(b, i, j)]
        dep_edge(a, i, j) == dep_edge(b, i, j) by {
        if dep_edge(a, i, j) {
            assert(b[i].dependencies.contains(b[j].key));
        }
        if dep_edge(b, i, j) {
            assert(a[i].dependencies.contains(a[j].key));
        }
    }
    assert forall|k: Seq<char>| #[trigger] has_key(a, k) == has_key(b, k) by {
        if has_key(a, k) {
            let i = choose|i: int| 0 <= i < a.len() && (#[trigger] a[i]).key == k;
            assert(b[i].key == k);
        }
        if has_key(b, k) {
            let i = choose|i: int| 0 <= i < b.len() && (#[trigger] b[i]).key == k;
            assert(a[i].key == k);
        }
    }
    assert(forall|p: Seq<int>| #[trigger] is_dep_path(a, p) == is_dep_path(b, p));
    assert forall|i: int, j: int| #[trigger] cycle_edge(a, i, j) == cycle_edge(b, i, j) by {
        assert(reaches(a, j, i) == reaches(b, j, i)) by {
            if reaches(a, j, i) {
                let p = choose|p: Seq<int>| #[trigger] is_dep_path(a, p) && p.first() == j
                    && p.last() == i;
                assert(is_dep_path(b, p));
            }
            if reaches(b, j, i) {
                let p = choose|p: Seq<int>| #[trigger] is_dep_path(b, p) && p.first() == j
                    && p.last() == i;
                assert(is_dep_path(a, p));
            }
        }
    }
    assert(has_cycle(a) == has_cycle(b)) by {
        if has_cycle(a) {
            let (i, j) = choose|i: int, j: int| #[trigger] cycle_edge(a, i, j);
            assert(cycle_edge(b, i, j));
        }
        if has_cycle(b) {
            let (i, j) = choose|i: int, j: int| #[trigger] cycle_edge(b, i, j);
            assert(cycle_edge(a, i, j));
        }
    }
    assert(acyclic(a) == acyclic(b)) by {
        if acyclic(a) {
            let rank = choose|rank: Seq<nat>| #[trigger] rank_ok(a, rank);
            assert(rank_ok(b, rank)) by {
                assert forall|i: int, j: int| #[trigger] dep_edge(b, i, j) implies rank[j]
                    < rank[i] by {
                    assert(dep_edge(a, i, j));
                }
            }
        }
        if acyclic(b) {
            let rank = choose|rank: Seq<nat>| #[trigger] rank_ok(b, rank);
            assert(rank_ok(a, rank)) by {
                assert forall|i: int, j: int| #[trigger] dep_edge(a, i, j) implies rank[j]
                    < rank[i] by {
                    assert(dep_edge(b, i, j));
                }
            }
        }
    }
    assert(keys_sorted(a) == keys_sorted(b)) by {
        if keys_sorted(a) {
            assert forall|i: int, j: int| 0 <= i < j < b.len() implies #[trigger] lex_lt(
                b[i].key,
                b[j].key,
            ) by {
                assert(lex_lt(a[i].key, a[j].key));
            }
        }
        if keys_sorted(b) {
            assert forall|i: int, j: int| 0 <= i < j < a.len() implies #[trigger] lex_lt(
                a[i].key,
                a[j].key,
            ) by {
                assert(lex_lt(b[i].key, b[j].key));
            }
        }
    }
    assert(deps_valid(a) == deps_valid(b)) by {
        if deps_valid(a) {
            assert forall|i: int, t: int|
                valid_idx(b, i) && 0 <= t < b[i].dependencies.len() implies has_key(
                b,
                #[trigger] b[i].dependencies[t],
            ) by {
                assert(has_key(a, a[i].dependencies[t]));
            }
        }
        if deps_valid(b) {
            assert forall|i: int, t: int|
                valid_idx(a, i) && 0 <= t < a[i].dependencies.len() implies has_key(
                a,
                #[trigger] a[i].dependencies[t],
            ) by {
                assert(has_key(b, b[i].dependencies[t]));
            }
        }
    }
    assert forall|k: Seq<char>| #[trigger] dangling_key(a, k) == dangling_key(b, k) by {
        if dangling_key(a, k) {
            let i = choose|i: int| 0 <= i < a.len() && (#[trigger] a[i]).dependencies.contains(k);
            assert(b[i].dependencies.contains(k));
        }
        if dangling_key(b, k) {
            let i = choose|i: int| 0 <= i < b.len() && (#[trigger] b[i]).dependencies.contains(k);
            assert(a[i].dependencies.contains(k));
        }
    }
}

proof fn lemma_dependant_keys_same(a: Seq<StackView>, b: Seq<StackView>, i: int, n: int)
    requires
        same_graph(a, b),
        n <= a.len(),
    ensures
        dependant_keys_upto(a, i, n) == dependant_keys_upto(b, i, n),
    decreases n,
{
    if n > 0 {
        lemma_dependant_keys_same(a, b, i, n - 1);
        lemma_same_graph(a, b);
        assert(dep_edge(a, n - 1, i) == dep_edge(b, n - 1, i));
    }
}

/// A dangling dependency refutes reference validity.
proof fn lemma_dangling_not_valid(ss: Seq<StackView>, k: Seq<char>)
    requires
        dangling_key(ss, k),
    ensures
        !deps_valid(ss),
{
    let i = choose|i: int| 0 <= i < ss.len() && (#[trigger] ss[i]).dependencies.contains(k);
    let t = choose|t: int| 0 <= t < ss[i].dependencies.len() && ss[i].dependencies[t] == k;
    assert(ss[i].dependencies[t] == k);
}

// ------------------------------------------------------------------- load
/// The well-known command template used when none is configured.
pub open spec fn default_command_spec() -> Seq<Seq<char>> {
    seq!["docker"@, "compose"@]
}

fn default_command() -> (r: Vec<String>)
    ensures
        r.deep_view() == default_command_spec(),
{
    let mut v: Vec<String> = Vec::new();
    v.push("docker".to_owned());
    v.push("compose".to_owned());
    proof {
        assert(v.deep_view() =~= default_command_spec());
    }
    v
}

/// How each loaded stack relates to its raw entry: key and data fields
/// are kept, and an empty display name defaults to the key.
pub open spec fn loaded_stack(o: StackView, s: StackView) -> bool {
    &&& o.key == s.key
    &&& o.name == (if s.name.len() == 0 {
        s.key
    } else {
        s.name
    })
    &&& o.directory == s.directory
    &&& o.file == s.file
    &&& o.dependencies == s.dependencies
    &&& o.environment == s.environment
}

/// The loaded stack set against the raw entries: fields kept, names
/// defaulted, and every `dependants` list computed as the exact
/// inverse of the declared dependencies.
pub open spec fn loaded_stacks(out: Seq<StackView>, inp: Seq<StackView>) -> bool {
    &&& out.len() == inp.len()
    &&& forall|i: int| 0 <= i < inp.len() ==> loaded_stack(#[trigger] out[i], inp[i])
    &&& dependants_exact(out)
}

/// The command template a load settles on: the configured one when it
/// has at least one token, the well-known default otherwise.
pub open spec fn loaded_command(command: Option<Vec<String>>) -> Seq<Seq<char>> {
    match command {
        Some(cmd) => if cmd.deep_view().len() > 0 {
            cmd.deep_view()
        } else {
            default_command_spec()
        },
        None => default_command_spec(),
    }
}

fn contains_string(v: &Vec<String>, x: &String) -> (r: bool)
    ensures
        r == v.deep_view().contains(x@),
{
    let mut i: usize = 0;
    while i < v.len()
        invariant
            i <= v.len(),
            forall|t: int| 0 <= t < i ==> (#[trigger] v.deep_view()[t]) != x@,
        decreases v.len() - i,
    {
        if v[i] == *x {
            proof {
                assert(v.deep_view()[i as int] == x@);
            }
            return true;
        }
        i = i + 1;
    }
    false
}

/// Builds the configuration from its raw entries: assigns display
/// names, validates every dependency reference, rejects dependency
/// cycles naming an edge on one, computes each stack's dependants as
/// the exact inverse of the declared dependencies, and falls back to
/// the default command template where none is given.
///
/// An acyclic, reference-valid set of entries always loads; a set with
/// a cycle, or with a dependency on an undeclared key, never does.
pub fn load(
    base_dir: String,
    command: Option<Vec<String>>,
    stacks: Vec<Stack>,
    environment: Vec<(String, String)>,
) -> (r: Result<Config, Error>)
    requires
        keys_sorted(stacks.deep_view()),
    ensures
        match r {
            Ok(c) => {
                &&& c@.well_formed()
                &&& c@.base_dir == base_dir@
                &&& c@.environment == environment.deep_view()
                &&& c@.command == loaded_command(command)
                &&& loaded_stacks(c@.stacks, stacks.deep_view())
                &&& deps_valid(stacks.deep_view())
                &&& !has_cycle(stacks.deep_view())
            },
            Err(e) => {
                &&& (e@ is DanglingDependency || e@ is DependencyCycle)
                &&& (e@ is DanglingDependency ==> dangling_key(
                    stacks.deep_view(),
                    e@->DanglingDependency_key,
                ))
                &&& (e@ is DependencyCycle ==> exists|ci: int, cj: int|
                    #[trigger] cycle_edge(stacks.deep_view(), ci, cj)
                        && e@->DependencyCycle_from == stacks.deep_view()[ci].key
                        && e@->DependencyCycle_to == stacks.deep_view()[cj].key)
                &&& (!deps_valid(stacks.deep_view()) || has_cycle(stacks.deep_view()))
            },
        },
{
    let ghost inp = stacks.deep_view();
    let n = stacks.len();
    // Assign display names and clear any authored dependants.
    let mut defaulted: Vec<Stack> = Vec::new();
    let mut i: usize = 0;
    while i < n
        invariant
            inp == stacks.deep_view(),
            n == inp.len(),
            i <= n,
            defaulted@.len() == i,
            forall|w: int|
                0 <= w < i ==> (#[trigger] defaulted@[w])@ == (StackView {
                    name: if inp[w].name.len() == 0 {
                        inp[w].key
                    } else {
                        inp[w].name
                    },
                    dependants: Seq::empty(),
                    ..inp[w]
                }),
        decreases n - i,
    {
        let mut s = stacks[i].clone();
        if s.name.as_str().is_empty() {
            s.name = s.key.clone();
        }
        s.dependants = Vec::new();
        proof {
            assert(s@.dependants =~= Seq::<Seq<char>>::empty());
            assert(s@ == (StackView {
                name: if inp[i as int].name.len() == 0 {
                    inp[i as int].key
                } else {
                    inp[i as int].name
                },
                dependants: Seq::empty(),
                ..inp[i as int]
            }));
        }
        defaulted.push(s);
        i = i + 1;
    }
    let ghost defv = defaulted.deep_view();
    proof {
        assert(defv.len() == defaulted@.len());
        assert(forall|w: int| 0 <= w < defv.len() ==> #[trigger] defv[w] == defaulted@[w]@);
        assert(same_graph(inp, defv)) by {
            assert forall|w: int| 0 <= w < inp.len() implies (#[trigger] inp[w]).key == defv[w].key
                && inp[w].dependencies == defv[w].dependencies by {
                assert(defv[w] == defaulted@[w]@);
            }
        }
        assert(same_graph(defv, inp));
        lemma_same_graph(inp, defv);
        assert(keys_sorted(defv));
    }
    // Validate references and resolve them to positions.
    let g = match resolve_deps(&defaulted) {
        Ok(g) => g,
        Err(e) => {
            proof {
                lemma_same_graph(defv, inp);
                lemma_dangling_not_valid(inp, e@->DanglingDependency_key);
            }
            return Err(e);
        },
    };
    // Reject dependency cycles.
    match check_graph(&defaulted, &g) {
        Ok(_) => {},
        Err(e) => {
            proof {
                lemma_same_graph(defv, inp);
                let (ci, cj) = choose|ci: int, cj: int|
                    #[trigger] cycle_edge(defv, ci, cj) && e@ is DependencyCycle
                        && e@->DependencyCycle_from == defv[ci].key && e@->DependencyCycle_to
                        == defv[cj].key;
                assert(cycle_edge(inp, ci, cj));
                assert(inp[ci].key == defv[ci].key && inp[cj].key == defv[cj].key);
            }
            return Err(e);
        },
    }
    // Compute every stack's dependants as the inverse relation.
    let mut loaded: Vec<Stack> = Vec::new();
    let mut i2: usize = 0;
    while i2 < n
        invariant
            defv == defaulted.deep_view(),
            n == defv.len(),
            i2 <= n,
            loaded@.len() == i2,
            forall|w: int|
                0 <= w < i2 ==> (#[trigger] loaded@[w])@ == (StackView {
                    dependants: dependant_keys_upto(defv, w, n as int),
                    ..defv[w]
                }),
        decreases n - i2,
    {
        let mut dps: Vec<String> = Vec::new();
        let mut j: usize = 0;
        while j < n
            invariant
                defv == defaulted.deep_view(),
                n == defv.len(),
                i2 < n,
                j <= n,
                dps.deep_view() == dependant_keys_upto(defv, i2 as int, j as int),
            decreases n - j,
        {
            if contains_string(&defaulted[j].dependencies, &defaulted[i2].key) {
                dps.push(defaulted[j].key.clone());
                proof {
                    assert(dep_edge(defv, j as int, i2 as int));
                    assert(dps.deep_view() =~= dependant_keys_upto(defv, i2 as int, j + 1));
                }
            } else {
                proof {
                    assert(!dep_edge(defv, j as int, i2 as int));
                }
            }
            j = j + 1;
        }
        let mut s = defaulted[i2].clone();
        s.dependants = dps;
        proof {
            assert(s@ == (StackView {
                dependants: dependant_keys_upto(defv, i2 as int, n as int),
                ..defv[i2 as int]
            }));
        }
        loaded.push(s);
        i2 = i2 + 1;
    }
    let ghost outv = loaded.deep_view();
    proof {
        assert(outv.len() == loaded@.len());
        assert(forall|w: int| 0 <= w < outv.len() ==> #[trigger] outv[w] == loaded@[w]@);
        assert forall|w: int| 0 <= w < outv.len() implies #[trigger] outv[w] == (StackView {
            dependants: dependant_keys_upto(defv, w, n as int),
            ..defv[w]
        }) by {
            assert(outv[w] == loaded@[w]@);
        }
    }
    // Settle the command template.
    let cmd = match command {
        Some(c) => {
            if c.len() > 0 {
                c
            } else {
                default_command()
            }
        },
        None => default_command(),
    };
    let config = Config { base_dir, command: cmd, stacks: loaded, environment };
    proof {
        assert(same_graph(defv, outv));
        assert(same_graph(outv, inp)) by {
            assert(same_graph(outv, defv));
        }
        lemma_same_graph(defv, outv);
        lemma_same_graph(outv, inp);
        lemma_same_graph(inp, outv);
        assert(dependants_exact(outv)) by {
            assert forall|w: int| valid_idx(outv, w) implies (#[trigger] outv[w]).dependants
                == dependant_keys(outv, w) by {
                lemma_dependant_keys_same(defv, outv, w, n as int);
            }
        }
        assert(acyclic(outv));
        lemma_acyclic_no_cycle(outv);
        assert(!has_cycle(inp));
        assert(config@.well_formed());
        assert(loaded_stacks(config@.stacks, inp));
    }
    Ok(config)
}

// -------------------------------------------------------- index-graph paths
/// A walk along edges of the index graph.
spec fn is_g_path(g: Seq<Seq<usize>>, p: Seq<int>) -> bool {
    p.len() >= 1 && 0 <= p.first() < g.len() && forall|t: int|
        0 <= t < p.len() - 1 ==> edge_g(g, #[trigger] p[t], p[t + 1])
}

/// `j` can be reached from `i` along edges of the index graph.
spec fn g_reaches(g: Seq<Seq<usize>>, i: int, j: int) -> bool {
    exists|p: Seq<int>| #[trigger] is_g_path(g, p) && p.first() == i && p.last() == j
}

/// Every row entry of `g` is a position below `g.len()`.
spec fn g_bounded(g: Seq<Seq<usize>>) -> bool {
    forall|i: int, t: int|
        0 <= i < g.len() && 0 <= t < g[i].len() ==> (#[trigger] g[i][t]) < g.len()
}

/// A rank function for the index graph: strictly decreasing along
/// every edge.
spec fn rank_ok_g(g: Seq<Seq<usize>>, rank: Seq<nat>) -> bool {
    rank.len() == g.len() && forall|i: int, j: int|
        #[trigger] edge_g(g, i, j) ==> rank[j] < rank[i]
}

proof fn lemma_g_reach_refl(g: Seq<Seq<usize>>, i: int)
    requires
        0 <= i < g.len(),
    ensures
        g_reaches(g, i, i),
{
    let p = seq![i];
    assert(is_g_path(g, p));
}

proof fn lemma_g_reach_step(g: Seq<Seq<usize>>, a: int, i: int, d: int)
    requires
        g_reaches(g, a, i),
        edge_g(g, i, d),
    ensures
        g_reaches(g, a, d),
{
    let p = choose|p: Seq<int>| #[trigger] is_g_path(g, p) && p.first() == a && p.last() == i;
    let p2 = p.push(d);
    assert(is_g_path(g, p2)) by {
        assert(p2.first() == a);
        assert forall|t: int| 0 <= t < p2.len() - 1 implies edge_g(g, #[trigger] p2[t], p2[t + 1]) by {
            if t < p.len() - 1 {
                assert(p2[t] == p[t] && p2[t + 1] == p[t + 1]);
            } else {
                assert(p2[t] == p.last() && p2[t + 1] == d);
            }
        }
    }
    assert(p2.last() == d);
}

/// In a closed mask, everything reachable from a member is a member.
proof fn lemma_closed_path(g: Seq<Seq<usize>>, m: Seq<bool>, p: Seq<int>)
    requires
        m.len() == g.len(),
        forall|i: int, j: int| #[trigger] edge_g(g, i, j) && 0 <= i < m.len() && m[i] ==> m[j],
        forall|i: int, j: int| #[trigger] edge_g(g, i, j) ==> 0 <= j < g.len(),
        is_g_path(g, p),
        m[p.first()],
    ensures
        m[p.last()],
    decreases p.len(),
{
    if p.len() > 1 {
        let q = p.skip(1);
        assert(edge_g(g, p[0], p[1]));
        assert(m[p[1]]);
        assert(is_g_path(g, q)) by {
            assert(0 <= q.first() < g.len());
            assert forall|t: int| 0 <= t < q.len() - 1 implies edge_g(g, #[trigger] q[t], q[t + 1]) by {
                assert(q[t] == p[t + 1] && q[t + 1] == p[t + 2]);
            }
        }
        lemma_closed_path(g, m, q);
        assert(q.last() == p.last());
    }
}

// ------------------------------------------------------------- counting
/// How many entries of `s` are true.
spec fn count_true(s: Seq<bool>) -> int
    decreases s.len(),
{
    if s.len() == 0 {
        0
    } else {
        count_true(s.drop_last()) + if s.last() {
            1int
        } else {
            0int
        }
    }
}

/// The positions of the true entries of `s`.
spec fn true_set(s: Seq<bool>) -> Set<int> {
    Set::new(|i: int| 0 <= i < s.len() && s[i])
}

proof fn lemma_true_set_card(s: Seq<bool>)
    ensures
        true_set(s).finite(),
        true_set(s).len() == count_true(s),
        0 <= count_true(s) <= s.len(),
    decreases s.len(),
{
    if s.len() == 0 {
        assert(true_set(s) =~= Set::<int>::empty());
    } else {
        let prev = s.drop_last();
        lemma_true_set_card(prev);
        if s.last() {
            assert(true_set(s) =~= true_set(prev).insert(s.len() - 1));
            assert(!true_set(prev).contains(s.len() - 1));
        } else {
            assert(true_set(s) =~= true_set(prev));
        }
    }
}

proof fn lemma_count_true_update(s: Seq<bool>, i: int)
    requires
        0 <= i < s.len(),
        !s[i],
    ensures
        count_true(s.update(i, true)) == count_true(s) + 1,
    decreases s.len(),
{
    let s2 = s.update(i, true);
    if i == s.len() - 1 {
        assert(s2.drop_last() =~= s.drop_last());
    } else {
        assert(s2.drop_last() =~= s.drop_last().update(i, true));
        lemma_count_true_update(s.drop_last(), i);
        assert(s2.last() == s.last());
    }
}

/// A duplicate-free sequence that contains every true position has at
/// least as many entries as there are true positions.
proof fn lemma_all_members_placed(m: Seq<bool>, placed: Seq<usize>)
    requires
        placed.no_duplicates(),
        m.len() <= usize::MAX,
        forall|i: int| 0 <= i < m.len() && m[i] ==> #[trigger] placed.contains(i as usize),
    ensures
        placed.len() >= count_true(m),
{
    let pi = placed.map_values(|x: usize| x as int);
    assert(pi.no_duplicates()) by {
        assert(forall|p: int, q: int|
            0 <= p < placed.len() && 0 <= q < placed.len() && p != q ==> #[trigger] placed[p]
                != #[trigger] placed[q]);
    }
    pi.unique_seq_to_set();
    lemma_true_set_card(m);
    assert(true_set(m).subset_of(pi.to_set())) by {
        assert forall|i: int| true_set(m).contains(i) implies pi.to_set().contains(i) by {
            assert(placed.contains(i as usize));
            let q = choose|q: int| 0 <= q < placed.len() && placed[q] == i as usize;
            assert(pi[q] == i);
        }
    }
    vstd::set_lib::lemma_len_subset(true_set(m), pi.to_set());
}

/// A nonempty finite set of positions has a member of minimal rank.
proof fn lemma_min_rank(rank: Seq<nat>, us: Set<int>)
    requires
        us.finite(),
        us.len() > 0,
        forall|u: int| #[trigger] us.contains(u) ==> 0 <= u < rank.len(),
    ensures
        exists|u: int|
            #[trigger] us.contains(u) && forall|v: int| #[trigger] us.contains(v) ==> rank[u]
                <= rank[v],
    decreases us.len(),
{
    let x = us.choose();
    assert(us.contains(x)) by {
        if !(exists|y: int| us.contains(y)) {
            assert(us =~= Set::<int>::empty());
        }
    }
    let rest = us.remove(x);
    if rest.len() == 0 {
        assert forall|v: int| #[trigger] us.contains(v) implies rank[x] <= rank[v] by {
            if v != x {
                assert(rest.contains(v));
                assert(rest =~= Set::<int>::empty());
            }
        }
    } else {
        lemma_min_rank(rank, rest);
        let u = choose|u: int|
            #[trigger] rest.contains(u) && forall|v: int| #[trigger] rest.contains(v) ==> rank[u]
                <= rank[v];
        if rank[x] <= rank[u] {
            assert forall|v: int| #[trigger] us.contains(v) implies rank[x] <= rank[v] by {
                if v != x {
                    assert(rest.contains(v));
                }
            }
        } else {
            assert forall|v: int| #[trigger] us.contains(v) implies rank[u] <= rank[v] by {
                if v != x {
                    assert(rest.contains(v));
                }
            }
            assert(us.contains(u));
        }
    }
}

// -------------------------------------------------------------- selection
/// `k` is among the first `w` requested names.
spec fn requested_upto(names: Seq<Seq<char>>, k: Seq<char>, w: int) -> bool {
    exists|v: int| 0 <= v < w && #[trigger] names[v] == k
}

/// Validates the requested names and marks the selected positions; an
/// empty request selects every stack.
fn select_mask(stacks: &Vec<Stack>, list: &Vec<String>) -> (r: Result<Vec<bool>, Error>)
    requires
        keys_sorted(stacks.deep_view()),
    ensures
        match r {
            Ok(m) => {
                &&& m@.len() == stacks.deep_view().len()
                &&& (list.deep_view().len() == 0 ==> forall|i: int|
                    0 <= i < m@.len() ==> #[trigger] m@[i])
                &&& (list.deep_view().len() > 0 ==> forall|i: int|
                    0 <= i < m@.len() ==> ((#[trigger] m@[i]) <==> list.deep_view().contains(
                        stacks.deep_view()[i].key,
                    )))
                &&& forall|w: int|
                    0 <= w < list.deep_view().len() ==> has_key(
                        stacks.deep_view(),
                        #[trigger] list.deep_view()[w],
                    )
            },
            Err(e) => {
                &&& e@ is UnknownStack
                &&& !has_key(stacks.deep_view(), e@->UnknownStack_name)
                &&& exists|w: int|
                    0 <= w < list.deep_view().len() && #[trigger] list.deep_view()[w]
                        == e@->UnknownStack_name && forall|v: int|
                        0 <= v < w ==> has_key(stacks.deep_view(), #[trigger] list.deep_view()[v])
            },
        },
{
    let ghost ss = stacks.deep_view();
    let ghost names = list.deep_view();
    let n = stacks.len();
    if list.len() == 0 {
        let m = vec![true; n];
        proof {
            assert(forall|i: int| 0 <= i < n ==> #[trigger] m@[i]);
        }
        return Ok(m);
    }
    proof {
        lemma_sorted_keys_distinct(ss);
    }
    let mut m: Vec<bool> = vec![false; n];
    proof {
        assert(forall|i: int| 0 <= i < n ==> !(#[trigger] m@[i]));
    }
    let mut w: usize = 0;
    while w < list.len()
        invariant
            ss == stacks.deep_view(),
            names == list.deep_view(),
            keys_sorted(ss),
            forall|a: int, b: int|
                0 <= a < ss.len() && 0 <= b < ss.len() && a != b ==> (#[trigger] ss[a]).key != (
                #[trigger] ss[b]).key,
            n == ss.len(),
            names.len() == list@.len(),
            w <= names.len(),
            m@.len() == n,
            forall|i: int|
                0 <= i < n ==> ((#[trigger] m@[i]) <==> requested_upto(names, ss[i].key, w as int)),
            forall|v: int| 0 <= v < w ==> has_key(ss, #[trigger] names[v]),
        decreases list@.len() - w,
    {
        proof {
            assert(names[w as int] == list@[w as int]@);
        }
        match find_key(stacks, &list[w]) {
            Some(i) => {
                m.set(i, true);
                proof {
                    assert forall|i2: int| 0 <= i2 < n implies ((#[trigger] m@[i2])
                        <==> requested_upto(names, ss[i2].key, w + 1)) by {
                        if i2 == i as int {
                            assert(names[w as int] == ss[i2].key);
                        } else {
                            assert(ss[i2].key != ss[i as int].key);
                            if requested_upto(names, ss[i2].key, w + 1) {
                                let v = choose|v: int|
                                    0 <= v < w + 1 && #[trigger] names[v] == ss[i2].key;
                                assert(v < w);
                            }
                        }
                    }
                }
            },
            None => {
                return Err(Error::UnknownStack { name: list[w].clone() });
            },
        }
        w = w + 1;
    }
    proof {
        assert forall|i: int| 0 <= i < n implies ((#[trigger] m@[i]) <==> names.contains(
            ss[i].key,
        )) by {
            if names.contains(ss[i].key) {
                let v = choose|v: int| 0 <= v < names.len() && #[trigger] names[v] == ss[i].key;
                assert(requested_upto(names, ss[i].key, names.len() as int));
            }
            if requested_upto(names, ss[i].key, names.len() as int) {
                let v = choose|v: int| 0 <= v < names.len() && #[trigger] names[v] == ss[i].key;
                assert(names.contains(ss[i].key));
            }
        }
    }
    Ok(m)
}

// --------------------------------------------------------------- closure
/// Expands the mask along the edges of the index graph to a fixed
/// point: afterwards a position is marked exactly when it is reachable
/// from some originally marked position.
fn close_mask(g: &Vec<Vec<usize>>, m: &mut Vec<bool>)
    requires
        graph_of(*g).len() == old(m)@.len(),
        g_bounded(graph_of(*g)),
    ensures
        final(m)@.len() == old(m)@.len(),
        forall|j: int|
            0 <= j < final(m)@.len() ==> ((#[trigger] final(m)@[j]) <==> exists|i: int|
                0 <= i < old(m)@.len() && old(m)@[i] && #[trigger] g_reaches(graph_of(*g), i, j)),
{
    let ghost gv = graph_of(*g);
    let ghost m0 = old(m)@;
    let n = m.len();
    proof {
        assert forall|j: int| 0 <= j < n && #[trigger] m@[j] implies exists|i: int|
            0 <= i < n && m0[i] && #[trigger] g_reaches(gv, i, j) by {
            lemma_g_reach_refl(gv, j);
        }
    }
    let mut changed = true;
    while changed
        invariant
            gv == graph_of(*g),
            g_bounded(gv),
            n == gv.len(),
            m@.len() == n,
            m0.len() == n,
            forall|i: int| 0 <= i < n && m0[i] ==> #[trigger] m@[i],
            forall|j: int|
                0 <= j < n && #[trigger] m@[j] ==> exists|i: int|
                    0 <= i < n && m0[i] && #[trigger] g_reaches(gv, i, j),
            !changed ==> forall|i: int, j: int|
                #[trigger] edge_g(gv, i, j) && 0 <= i < n && m@[i] ==> m@[j],
        decreases n - count_true(m@), (if changed {
            1int
        } else {
            0int
        }),
    {
        proof {
            lemma_true_set_card(m@);
        }
        let ghost pass_start = m@;
        changed = false;
        let mut i: usize = 0;
        while i < n
            invariant
                gv == graph_of(*g),
                g_bounded(gv),
                n == gv.len(),
                m@.len() == n,
                m0.len() == n,
                i <= n,
                forall|a: int| 0 <= a < n && m0[a] ==> #[trigger] m@[a],
                forall|a: int| 0 <= a < n && pass_start[a] ==> #[trigger] m@[a],
                forall|j: int|
                    0 <= j < n && #[trigger] m@[j] ==> exists|a: int|
                        0 <= a < n && m0[a] && #[trigger] g_reaches(gv, a, j),
                changed ==> count_true(m@) > count_true(pass_start),
                count_true(m@) >= count_true(pass_start),
                !changed ==> m@ == pass_start,
                !changed ==> forall|a: int, j: int|
                    #[trigger] edge_g(gv, a, j) && 0 <= a < i && m@[a] ==> m@[j],
            decreases n - i,
        {
            if m[i] {
                let row_len = g[i].len();
                let mut t: usize = 0;
                while t < row_len
                    invariant
                        gv == graph_of(*g),
                        g_bounded(gv),
                        n == gv.len(),
                        m@.len() == n,
                        m0.len() == n,
                        i < n,
                        t <= row_len,
                        row_len == gv[i as int].len(),
                        m@[i as int],
                        forall|a: int| 0 <= a < n && m0[a] ==> #[trigger] m@[a],
                        forall|a: int| 0 <= a < n && pass_start[a] ==> #[trigger] m@[a],
                        forall|j: int|
                            0 <= j < n && #[trigger] m@[j] ==> exists|a: int|
                                0 <= a < n && m0[a] && #[trigger] g_reaches(gv, a, j),
                        changed ==> count_true(m@) > count_true(pass_start),
                        count_true(m@) >= count_true(pass_start),
                        !changed ==> m@ == pass_start,
                        !changed ==> forall|a: int, j: int|
                            #[trigger] edge_g(gv, a, j) && 0 <= a < i && m@[a] ==> m@[j],
                        !changed ==> forall|w: int|
                            0 <= w < t ==> m@[(#[trigger] gv[i as int][w]) as int],
                    decreases row_len - t,
                {
                    let d = g[i][t];
                    if !m[d] {
                        proof {
                            lemma_count_true_update(m@, d as int);
                            let a = choose|a: int|
                                0 <= a < n && m0[a] && #[trigger] g_reaches(gv, a, i as int);
                            assert(edge_g(gv, i as int, d as int)) by {
                                assert(gv[i as int][t as int] == d);
                            }
                            lemma_g_reach_step(gv, a, i as int, d as int);
                        }
                        m.set(d, true);
                        changed = true;
                    }
                    t = t + 1;
                }
            }
            i = i + 1;
        }
        proof {
            lemma_true_set_card(m@);
        }
    }
    proof {
        assert forall|j: int| 0 <= j < n implies ((#[trigger] m@[j]) <==> exists|i: int|
            0 <= i < n && m0[i] && #[trigger] g_reaches(gv, i, j)) by {
            if exists|i: int| 0 <= i < n && m0[i] && #[trigger] g_reaches(gv, i, j) {
                let i = choose|i: int| 0 <= i < n && m0[i] && #[trigger] g_reaches(gv, i, j);
                let p = choose|p: Seq<int>|
                    #[trigger] is_g_path(gv, p) && p.first() == i && p.last() == j;
                assert(forall|a: int, b: int| #[trigger] edge_g(gv, a, b) ==> 0 <= b < gv.len());
                lemma_closed_path(gv, m@, p);
            }
        }
    }
}

// -------------------------------------------------------------- placement
/// The stack at `i` is selected, not yet placed, and every selected
/// edge target of it is already placed.
spec fn placeable(g: Seq<Seq<usize>>, m: Seq<bool>, added: Seq<bool>, i: int) -> bool {
    &&& 0 <= i < m.len()
    &&& m[i]
    &&& !added[i]
    &&& forall|t: int|
        0 <= t < g[i].len() && m[(#[trigger] g[i][t]) as int] ==> added[g[i][t] as int]
}

/// Every selected edge target of every placed stack stands earlier in
/// the order.
spec fn topo_ok(g: Seq<Seq<usize>>, m: Seq<bool>, r: Seq<usize>) -> bool {
    forall|pos: int, t: int|
        0 <= pos < r.len() && 0 <= t < g[r[pos] as int].len() && m[(#[trigger] g[r[pos] as int][t]) as int]
            ==> finished_before(r, pos, g[r[pos] as int][t])
}

proof fn lemma_topo_push(
    g: Seq<Seq<usize>>,
    m: Seq<bool>,
    r: Seq<usize>,
    added: Seq<bool>,
    x: usize,
)
    requires
        topo_ok(g, m, r),
        (x as int) < g.len(),
        m.len() == g.len(),
        added.len() == g.len(),
        g_bounded(g),
        forall|q: int| 0 <= q < g.len() ==> ((#[trigger] added[q]) <==> r.contains(q as usize)),
        forall|t: int|
            0 <= t < g[x as int].len() && m[(#[trigger] g[x as int][t]) as int] ==> added[g[x as int][t] as int],
    ensures
        topo_ok(g, m, r.push(x)),
{
    let r2 = r.push(x);
    assert forall|pos: int, t2: int|
        0 <= pos < r2.len() && 0 <= t2 < g[r2[pos] as int].len() && m[(#[trigger] g[r2[pos] as int][t2]) as int] implies finished_before(
        r2,
        pos,
        g[r2[pos] as int][t2],
    ) by {
        if pos < r.len() {
            assert(r2[pos] == r[pos]);
            assert(finished_before(r, pos, g[r[pos] as int][t2]));
            let q = choose|q: int| 0 <= q < pos && #[trigger] r[q] == g[r[pos] as int][t2];
            assert(r2[q] == g[r2[pos] as int][t2]);
        } else {
            assert(r2[pos] == x);
            let dd = g[x as int][t2];
            assert(added[dd as int]);
            assert(r.contains(dd));
            let q = choose|q: int| 0 <= q < r.len() && #[trigger] r[q] == dd;
            assert(r2[q] == dd);
        }
    }
}

/// Orders the selected positions so that every selected edge target of
/// a stack stands strictly earlier: repeated descending scans place a
/// stack once all its selected targets are placed.
fn place(g: &Vec<Vec<usize>>, m: &Vec<bool>) -> (r: Vec<usize>)
    requires
        graph_of(*g).len() == m@.len(),
        g_bounded(graph_of(*g)),
        exists|rank: Seq<nat>| #[trigger] rank_ok_g(graph_of(*g), rank),
    ensures
        r@.no_duplicates(),
        forall|pos: int|
            0 <= pos < r@.len() ==> (#[trigger] r@[pos]) < m@.len() && m@[r@[pos] as int],
        forall|i: int| 0 <= i < m@.len() ==> ((#[trigger] m@[i]) <==> r@.contains(i as usize)),
        topo_ok(graph_of(*g), m@, r@),
{
    let ghost gv = graph_of(*g);
    let n = m.len();
    let mut k: usize = 0;
    let mut c: usize = 0;
    while c < n
        invariant
            c <= n,
            m@.len() == n,
            k == count_true(m@.take(c as int)),
            k <= c,
        decreases n - c,
    {
        if m[c] {
            k = k + 1;
        }
        proof {
            assert(m@.take(c + 1).drop_last() =~= m@.take(c as int));
            assert(m@.take(c + 1).last() == m@[c as int]);
        }
        c = c + 1;
    }
    proof {
        assert(m@.take(n as int) =~= m@);
    }
    let mut placed: Vec<usize> = Vec::new();
    let mut added: Vec<bool> = vec![false; n];
    proof {
        assert(forall|x: int| 0 <= x < n ==> !(#[trigger] added@[x]));
    }
    while placed.len() < k
        invariant
            gv == graph_of(*g),
            g_bounded(gv),
            n == gv.len(),
            m@.len() == n,
            added@.len() == n,
            k == count_true(m@),
            placed@.no_duplicates(),
            forall|pos: int|
                0 <= pos < placed@.len() ==> (#[trigger] placed@[pos]) < n && m@[placed@[pos] as int],
            forall|x: int|
                0 <= x < n ==> ((#[trigger] added@[x]) <==> placed@.contains(x as usize)),
            topo_ok(gv, m@, placed@),
            placed@.len() <= k,
            exists|rank: Seq<nat>| #[trigger] rank_ok_g(gv, rank),
        decreases k - placed@.len(),
    {
        let ghost start_placed = placed@;
        let ghost start_added = added@;
        let mut idx: usize = 0;
        while idx < n
            invariant
                gv == graph_of(*g),
                g_bounded(gv),
                n == gv.len(),
                m@.len() == n,
                added@.len() == n,
                idx <= n,
                placed@.no_duplicates(),
                forall|pos: int|
                    0 <= pos < placed@.len() ==> (#[trigger] placed@[pos]) < n && m@[placed@[pos] as int],
                forall|x: int|
                    0 <= x < n ==> ((#[trigger] added@[x]) <==> placed@.contains(x as usize)),
                topo_ok(gv, m@, placed@),
                start_placed.len() <= placed@.len(),
                forall|x: int| 0 <= x < n && start_added[x] ==> (#[trigger] added@[x]),
                placed@.len() == start_placed.len() ==> added@ == start_added,
                placed@.len() == start_placed.len() ==> forall|y: int|
                    n - idx <= y < n ==> !placeable(gv, m@, start_added, y),
                placed@.len() <= count_true(m@),
            decreases n - idx,
        {
            let i = n - 1 - idx;
            if m[i] && !added[i] {
                let row_len = g[i].len();
                let mut ok = true;
                let mut t: usize = 0;
                while t < row_len
                    invariant
                        gv == graph_of(*g),
                        g_bounded(gv),
                        n == gv.len(),
                        m@.len() == n,
                        added@.len() == n,
                        i < n,
                        t <= row_len,
                        row_len == gv[i as int].len(),
                        ok ==> forall|w: int|
                            0 <= w < t && m@[(#[trigger] gv[i as int][w]) as int] ==> added@[gv[i as int][w] as int],
                        !ok ==> exists|w: int|
                            0 <= w < t && m@[(#[trigger] gv[i as int][w]) as int]
                                && !added@[gv[i as int][w] as int],
                    decreases row_len - t,
                {
                    let d = g[i][t];
                    if m[d] && !added[d] {
                        ok = false;
                        proof {
                            assert(gv[i as int][t as int] == d);
                        }
                    }
                    t = t + 1;
                }
                if ok {
                    proof {
                        lemma_topo_push(gv, m@, placed@, added@, i);
                        assert(!placed@.contains(i));
                        let ghost p2 = placed@.push(i);
                        assert(p2.no_duplicates()) by {
                            assert forall|a: int, b: int|
                                0 <= a < p2.len() && 0 <= b < p2.len() && a != b implies p2[a]
                                != p2[b] by {
                                if a < p2.len() - 1 && b < p2.len() - 1 {
                                    assert(p2[a] == placed@[a] && p2[b] == placed@[b]);
                                } else if a == p2.len() - 1 {
                                    assert(p2[a] == i && p2[b] == placed@[b]);
                                } else {
                                    assert(p2[b] == i && p2[a] == placed@[a]);
                                }
                            }
                        }
                        assert(placed@.len() < count_true(m@)) by {
                            if placed@.len() >= count_true(m@) {
                                lemma_all_members_placed_partial(m@, placed@, i as int);
                            }
                        }
                    }
                    let ghost prev_placed = placed@;
                    placed.push(i);
                    added.set(i, true);
                    proof {
                        assert forall|x: int| 0 <= x < n implies ((#[trigger] added@[x])
                            <==> placed@.contains(x as usize)) by {
                            let prev = prev_placed;
                            assert(placed@ == prev.push(i));
                            if x == i as int {
                                assert(placed@[placed@.len() - 1] == i);
                                assert(placed@.contains(i));
                            } else {
                                if prev.contains(x as usize) {
                                    let q = choose|q: int|
                                        0 <= q < prev.len() && #[trigger] prev[q] == x as usize;
                                    assert(placed@[q] == x as usize);
                                }
                                if placed@.contains(x as usize) {
                                    let q = choose|q: int|
                                        0 <= q < placed@.len() && #[trigger] placed@[q]
                                            == x as usize;
                                    assert(q < placed@.len() - 1) by {
                                        if q == placed@.len() - 1 {
                                            assert(placed@[q] == i);
                                            assert((x as usize) as int == x);
                                        }
                                    }
                                    assert(prev[q] == x as usize);
                                    assert(prev.contains(x as usize));
                                }
                            }
                        }
                    }
                }
            }
            idx = idx + 1;
        }
        proof {
            if placed@.len() == start_placed.len() {
                let us = Set::new(|x: int| 0 <= x < n && m@[x] && !added@[x]);
                vstd::set_lib::lemma_int_range(0, n as int);
                assert(us.subset_of(vstd::set_lib::set_int_range(0, n as int)));
                vstd::set_lib::lemma_len_subset(us, vstd::set_lib::set_int_range(0, n as int));
                assert(us.len() > 0) by {
                    if us.len() == 0 {
                        us.lemma_len0_is_empty();
                        assert forall|x: int| 0 <= x < n && m@[x] implies #[trigger] placed@.contains(
                            x as usize,
                        ) by {
                            assert(!us.contains(x));
                            assert(added@[x]);
                        }
                        lemma_all_members_placed(m@, placed@);
                    }
                }
                let rank = choose|rank: Seq<nat>| #[trigger] rank_ok_g(gv, rank);
                lemma_min_rank(rank, us);
                let u = choose|u: int|
                    #[trigger] us.contains(u) && forall|v: int| #[trigger] us.contains(v)
                        ==> rank[u] <= rank[v];
                assert(placeable(gv, m@, start_added, u)) by {
                    assert forall|t: int|
                        0 <= t < gv[u].len() && m@[(#[trigger] gv[u][t]) as int] implies start_added[gv[u][t] as int] by {
                        let dd = gv[u][t] as int;
                        if !added@[dd] {
                            assert(us.contains(dd));
                            assert(edge_g(gv, u, dd)) by {
                                assert(gv[u][t] == gv[u][t]);
                            }
                            assert(rank[dd] < rank[u]);
                        }
                        assert(added@[dd] == start_added[dd]);
                    }
                    assert(m@[u] && !start_added[u]);
                }
                assert(!placeable(gv, m@, start_added, u));
                assert(false);
            }
        }
    }
    proof {
        assert(placed@.len() == k);
        assert forall|i: int| 0 <= i < n && m@[i] implies #[trigger] placed@.contains(
            i as usize,
        ) by {
            if !placed@.contains(i as usize) {
                lemma_all_members_placed_partial(m@, placed@, i);
            }
        }
    }
    placed
}

/// A duplicate-free sequence of selected positions that misses one
/// selected position is strictly shorter than the selection.
proof fn lemma_all_members_placed_partial(m: Seq<bool>, placed: Seq<usize>, miss: int)
    requires
        placed.no_duplicates(),
        m.len() <= usize::MAX,
        0 <= miss < m.len(),
        m[miss],
        !placed.contains(miss as usize),
        forall|pos: int|
            0 <= pos < placed.len() ==> (#[trigger] placed[pos]) < m.len() && m[placed[pos] as int],
    ensures
        placed.len() < count_true(m),
{
    let pi = placed.map_values(|x: usize| x as int);
    assert(pi.no_duplicates()) by {
        assert(forall|p: int, q: int|
            0 <= p < placed.len() && 0 <= q < placed.len() && p != q ==> #[trigger] placed[p]
                != #[trigger] placed[q]);
    }
    pi.unique_seq_to_set();
    lemma_true_set_card(m);
    assert(pi.to_set().subset_of(true_set(m).remove(miss))) by {
        assert forall|x: int| pi.to_set().contains(x) implies true_set(m).remove(miss).contains(
            x,
        ) by {
            let q = choose|q: int| 0 <= q < pi.len() && pi[q] == x;
            assert(placed[q] < m.len() && m[placed[q] as int]);
            assert(x != miss) by {
                if x == miss {
                    assert(placed[q] == miss as usize);
                    assert(placed.contains(miss as usize));
                }
            }
        }
    }
    assert(true_set(m).contains(miss));
    assert(true_set(m).remove(miss).len() == true_set(m).len() - 1);
    vstd::set_lib::lemma_len_subset(pi.to_set(), true_set(m).remove(miss));
}

// ------------------------------------------------- dependant resolution
/// The index graph of the inverse relation: row `i` holds the
/// positions of the stacks that declare the stack at `i` as a
/// dependency.
spec fn g_matches_dependants(ss: Seq<StackView>, g: Seq<Seq<usize>>) -> bool {
    &&& g.len() == ss.len()
    &&& forall|i: int| 0 <= i < ss.len() ==> (#[trigger] g[i]).len() == ss[i].dependants.len()
    &&& forall|i: int, t: int|
        0 <= i < ss.len() && 0 <= t < g[i].len() ==> (#[trigger] g[i][t]) < ss.len() && ss[g[i][t] as int].key
            == ss[i].dependants[t]
}

/// In a well-formed stack set every dependant entry names a stack.
proof fn lemma_dependants_are_keys(ss: Seq<StackView>)
    requires
        dependants_exact(ss),
    ensures
        forall|i: int, t: int|
            valid_idx(ss, i) && 0 <= t < ss[i].dependants.len() ==> has_key(
                ss,
                #[trigger] ss[i].dependants[t],
            ),
{
    assert forall|i: int, t: int|
        valid_idx(ss, i) && 0 <= t < ss[i].dependants.len() implies has_key(
        ss,
        #[trigger] ss[i].dependants[t],
    ) by {
        let k = ss[i].dependants[t];
        assert(ss[i].dependants.contains(k));
        lemma_dependant_keys_upto_contains(ss, i, ss.len() as int, k);
        let j = choose|j: int|
            0 <= j < ss.len() && #[trigger] dep_edge(ss, j, i) && ss[j].key == k;
        assert(ss[j].key == k);
    }
}

/// Resolves every dependant entry to its position; total on a
/// well-formed stack set.
fn resolve_dependants(stacks: &Vec<Stack>) -> (g: Vec<Vec<usize>>)
    requires
        forall|i: int, t: int|
            valid_idx(stacks.deep_view(), i) && 0 <= t < stacks.deep_view()[i].dependants.len()
                ==> has_key(stacks.deep_view(), #[trigger] stacks.deep_view()[i].dependants[t]),
    ensures
        g_matches_dependants(stacks.deep_view(), graph_of(g)),
{
    let ghost ss = stacks.deep_view();
    let n = stacks.len();
    let mut g: Vec<Vec<usize>> = Vec::new();
    let mut i: usize = 0;
    while i < n
        invariant
            ss == stacks.deep_view(),
            n == ss.len(),
            i <= n,
            forall|a: int, t: int|
                valid_idx(ss, a) && 0 <= t < ss[a].dependants.len() ==> has_key(
                    ss,
                    #[trigger] ss[a].dependants[t],
                ),
            g@.len() == i,
            forall|a: int| 0 <= a < i ==> (#[trigger] g@[a]@).len() == ss[a].dependants.len(),
            forall|a: int, t: int|
                0 <= a < i && 0 <= t < g@[a]@.len() ==> (#[trigger] g@[a]@[t]) < n
                    && ss[g@[a]@[t] as int].key == ss[a].dependants[t],
        decreases n - i,
    {
        let dps = &stacks[i].dependants;
        let mut row: Vec<usize> = Vec::new();
        let mut t: usize = 0;
        while t < dps.len()
            invariant
                ss == stacks.deep_view(),
                n == ss.len(),
                i < n,
                t <= dps.len(),
                dps == &stacks[i as int].dependants,
                dps@.len() == ss[i as int].dependants.len(),
                forall|w: int|
                    0 <= w < dps@.len() ==> (#[trigger] dps@[w])@ == ss[i as int].dependants[w],
                forall|a: int, t2: int|
                    valid_idx(ss, a) && 0 <= t2 < ss[a].dependants.len() ==> has_key(
                        ss,
                        #[trigger] ss[a].dependants[t2],
                    ),
                row@.len() == t,
                forall|w: int|
                    0 <= w < t ==> (#[trigger] row@[w]) < n && ss[row@[w] as int].key == ss[i as int].dependants[w],
            decreases dps.len() - t,
        {
            match find_key(stacks, &dps[t]) {
                Some(j) => {
                    row.push(j);
                },
                None => {
                    proof {
                        assert(has_key(ss, ss[i as int].dependants[t as int]));
                        assert(dps@[t as int]@ == ss[i as int].dependants[t as int]);
                        assert(false);
                    }
                    return Vec::new();
                },
            }
            t = t + 1;
        }
        g.push(row);
        i = i + 1;
    }
    g
}

// --------------------------------------------- index/key correspondence
/// With matching forward edges, reachability in the index graph is
/// reachability in the stack graph.
proof fn lemma_forward_reach(ss: Seq<StackView>, g: Seq<Seq<usize>>)
    requires
        g_matches(ss, g),
        keys_sorted(ss),
    ensures
        forall|i: int, j: int|
            #![trigger g_reaches(g, i, j)]
            #![trigger reaches(ss, i, j)]
            g_reaches(g, i, j) == reaches(ss, i, j),
        forall|i: int, j: int|
            #![trigger edge_g(g, i, j)]
            #![trigger dep_edge(ss, i, j)]
            edge_g(g, i, j) == dep_edge(ss, i, j),
{
    assert forall|i: int, j: int|
        #![trigger edge_g(g, i, j)]
        #![trigger dep_edge(ss, i, j)]
        edge_g(g, i, j) == dep_edge(ss, i, j) by {
        if edge_g(g, i, j) {
            lemma_edge_to_dep(ss, g, i, j);
        }
        if dep_edge(ss, i, j) {
            lemma_dep_to_edge(ss, g, i, j);
        }
    }
    assert forall|i: int, j: int|
        #![trigger g_reaches(g, i, j)]
        #![trigger reaches(ss, i, j)]
        g_reaches(g, i, j) == reaches(ss, i, j) by {
        if g_reaches(g, i, j) {
            let p = choose|p: Seq<int>|
                #[trigger] is_g_path(g, p) && p.first() == i && p.last() == j;
            assert(is_dep_path(ss, p));
        }
        if reaches(ss, i, j) {
            let p = choose|p: Seq<int>|
                #[trigger] is_dep_path(ss, p) && p.first() == i && p.last() == j;
            assert(is_g_path(g, p));
        }
    }
}

/// With matching inverse edges, reachability in the inverse index
/// graph is reversed reachability in the stack graph.
proof fn lemma_backward_reach(ss: Seq<StackView>, g: Seq<Seq<usize>>)
    requires
        g_matches_dependants(ss, g),
        keys_sorted(ss),
        dependants_exact(ss),
    ensures
        forall|i: int, j: int|
            #![trigger edge_g(g, i, j)]
            edge_g(g, i, j) == dep_edge(ss, j, i),
        forall|i: int, j: int|
            #![trigger g_reaches(g, i, j)]
            g_reaches(g, i, j) == reaches(ss, j, i),
{
    lemma_sorted_keys_distinct(ss);
    lemma_dependants_inverse(ss);
    assert forall|i: int, j: int| #![trigger edge_g(g, i, j)] edge_g(g, i, j) == dep_edge(
        ss,
        j,
        i,
    ) by {
        if edge_g(g, i, j) {
            let t = choose|t: int| 0 <= t < g[i].len() && (#[trigger] g[i][t]) as int == j;
            assert(ss[j].key == ss[i].dependants[t]);
            assert(ss[i].dependants.contains(ss[j].key));
            assert(valid_idx(ss, i) && valid_idx(ss, j));
            assert(dep_edge(ss, j, i));
        }
        if 0 <= i < ss.len() && 0 <= j < ss.len() && dep_edge(ss, j, i) {
            assert(ss[i].dependants.contains(ss[j].key));
            let t = choose|t: int|
                0 <= t < ss[i].dependants.len() && #[trigger] ss[i].dependants[t] == ss[j].key;
            assert(ss[g[i][t] as int].key == ss[j].key);
            assert(g[i][t] as int == j);
            assert(edge_g(g, i, j));
        }
    }
    assert forall|i: int, j: int| #![trigger g_reaches(g, i, j)] g_reaches(g, i, j) == reaches(
        ss,
        j,
        i,
    ) by {
        if g_reaches(g, i, j) {
            let p = choose|p: Seq<int>|
                #[trigger] is_g_path(g, p) && p.first() == i && p.last() == j;
            let q = p.reverse();
            assert(is_dep_path(ss, q)) by {
                assert(q.len() == p.len());
                assert(q.first() == p.last());
                assert(0 <= q.first() < ss.len()) by {
                    if p.len() == 1 {
                        assert(p.last() == p.first());
                    } else {
                        assert(edge_g(g, p[p.len() - 2], p[p.len() - 1]));
                        assert(dep_edge(ss, p[p.len() - 1], p[p.len() - 2]));
                    }
                }
                assert forall|t: int| 0 <= t < q.len() - 1 implies dep_edge(
                    ss,
                    #[trigger] q[t],
                    q[t + 1],
                ) by {
                    let w = p.len() - 2 - t;
                    assert(q[t] == p[p.len() - 1 - t]);
                    assert(q[t + 1] == p[p.len() - 2 - t]);
                    assert(edge_g(g, p[w], p[w + 1]));
                }
            }
            assert(q.first() == j && q.last() == i);
            assert(reaches(ss, j, i));
        }
        if reaches(ss, j, i) {
            let p = choose|p: Seq<int>|
                #[trigger] is_dep_path(ss, p) && p.first() == j && p.last() == i;
            let q = p.reverse();
            assert(is_g_path(g, q)) by {
                assert(q.len() == p.len());
                assert(0 <= q.first() < g.len()) by {
                    if p.len() == 1 {
                        assert(p.last() == p.first());
                    } else {
                        assert(dep_edge(ss, p[p.len() - 2], p[p.len() - 1]));
                    }
                }
                assert forall|t: int| 0 <= t < q.len() - 1 implies edge_g(
                    g,
                    #[trigger] q[t],
                    q[t + 1],
                ) by {
                    let w = p.len() - 2 - t;
                    assert(q[t] == p[p.len() - 1 - t]);
                    assert(q[t + 1] == p[p.len() - 2 - t]);
                    assert(dep_edge(ss, p[w], p[w + 1]));
                    assert(edge_g(g, p[w + 1], p[w]));
                }
            }
            assert(q.first() == i && q.last() == j);
        }
    }
}

/// A rank for the stack graph is a rank for a matching forward index
/// graph.
proof fn lemma_forward_rank(ss: Seq<StackView>, g: Seq<Seq<usize>>)
    requires
        g_matches(ss, g),
        keys_sorted(ss),
        acyclic(ss),
    ensures
        exists|rank: Seq<nat>| #[trigger] rank_ok_g(g, rank),
{
    let rank = choose|rank: Seq<nat>| #[trigger] rank_ok(ss, rank);
    lemma_forward_reach(ss, g);
    assert(rank_ok_g(g, rank)) by {
        assert forall|i: int, j: int| #[trigger] edge_g(g, i, j) implies rank[j] < rank[i] by {
            assert(dep_edge(ss, i, j));
        }
    }
}

/// Every entry of a rank sequence is bounded by some value.
proof fn lemma_rank_bound(rank: Seq<nat>) -> (bound: nat)
    ensures
        forall|i: int| 0 <= i < rank.len() ==> #[trigger] rank[i] <= bound,
    decreases rank.len(),
{
    if rank.len() == 0 {
        0
    } else {
        let prev = lemma_rank_bound(rank.drop_last());
        let b = if rank.last() > prev {
            rank.last()
        } else {
            prev
        };
        assert forall|i: int| 0 <= i < rank.len() implies #[trigger] rank[i] <= b by {
            if i < rank.len() - 1 {
                assert(rank.drop_last()[i] == rank[i]);
            }
        }
        b
    }
}

/// A rank for the stack graph yields a rank for a matching inverse
/// index graph by reflection.
proof fn lemma_backward_rank(ss: Seq<StackView>, g: Seq<Seq<usize>>)
    requires
        g_matches_dependants(ss, g),
        keys_sorted(ss),
        dependants_exact(ss),
        acyclic(ss),
    ensures
        exists|rank: Seq<nat>| #[trigger] rank_ok_g(g, rank),
{
    let rank = choose|rank: Seq<nat>| #[trigger] rank_ok(ss, rank);
    lemma_backward_reach(ss, g);
    let bound = lemma_rank_bound(rank);
    let rank2 = Seq::<nat>::new(rank.len(), |i: int| (bound - rank[i]) as nat);
    assert(rank_ok_g(g, rank2)) by {
        assert forall|i: int, j: int| #[trigger] edge_g(g, i, j) implies rank2[j] < rank2[i] by {
            assert(dep_edge(ss, j, i));
            assert(rank[i] < rank[j]);
            assert(rank[j] <= bound);
        }
    }
}

/// Clones the stacks at the given positions, in order.
fn collect_stacks(stacks: &Vec<Stack>, order: &Vec<usize>) -> (r: Vec<Stack>)
    requires
        forall|p: int| 0 <= p < order@.len() ==> (#[trigger] order@[p]) < stacks@.len(),
    ensures
        r@.len() == order@.len(),
        forall|p: int|
            0 <= p < order@.len() ==> (#[trigger] r@[p])@ == stacks.deep_view()[order@[p] as int],
{
    let mut r: Vec<Stack> = Vec::new();
    let mut p: usize = 0;
    while p < order.len()
        invariant
            forall|w: int| 0 <= w < order@.len() ==> (#[trigger] order@[w]) < stacks@.len(),
            p <= order@.len(),
            r@.len() == p,
            forall|w: int|
                0 <= w < p ==> (#[trigger] r@[w])@ == stacks.deep_view()[order@[w] as int],
        decreases order@.len() - p,
    {
        r.push(stacks[order[p]].clone());
        p = p + 1;
    }
    r
}

// ------------------------------------------------------ query vocabulary
impl ConfigView {
    /// Position `i` is selected by the request: every position when
    /// the request is empty, the named ones otherwise.
    pub open spec fn selected(self, names: Seq<Seq<char>>, i: int) -> bool {
        valid_idx(self.stacks, i) && (names.len() == 0 || names.contains(self.stacks[i].key))
    }
}

/// `j` lies in the forward closure of the request: some selected stack
/// reaches it along dependency edges.
pub open spec fn in_forward_closure(cv: ConfigView, names: Seq<Seq<char>>, j: int) -> bool {
    exists|i: int| #[trigger] cv.selected(names, i) && reaches(cv.stacks, i, j)
}

/// `j` lies in the backward closure of the request: it reaches some
/// selected stack along dependency edges.
pub open spec fn in_backward_closure(cv: ConfigView, names: Seq<Seq<char>>, j: int) -> bool {
    exists|i: int| #[trigger] cv.selected(names, i) && reaches(cv.stacks, j, i)
}

/// Some entry of `rs` carries key `k`.
pub open spec fn key_listed(rs: Seq<StackView>, k: Seq<char>) -> bool {
    exists|q: int| 0 <= q < rs.len() && (#[trigger] rs[q]).key == k
}

/// Some entry of `rs` strictly before `p` carries key `k`.
pub open spec fn key_listed_before(rs: Seq<StackView>, p: int, k: Seq<char>) -> bool {
    exists|q: int| 0 <= q < p && q < rs.len() && (#[trigger] rs[q]).key == k
}

/// Some entry of `rs` strictly after `p` carries key `k`.
pub open spec fn key_listed_after(rs: Seq<StackView>, p: int, k: Seq<char>) -> bool {
    exists|q: int| p < q < rs.len() && (#[trigger] rs[q]).key == k
}

/// Each entry of `rs` is one of the stacks of `ss`.
pub open spec fn all_from(ss: Seq<StackView>, rs: Seq<StackView>) -> bool {
    forall|p: int| 0 <= p < rs.len() ==> ss.contains(#[trigger] rs[p])
}

/// No two entries of `rs` carry the same key.
pub open spec fn distinct_keys(rs: Seq<StackView>) -> bool {
    forall|p: int, q: int|
        0 <= p < rs.len() && 0 <= q < rs.len() && p != q ==> (#[trigger] rs[p]).key != (
        #[trigger] rs[q]).key
}

/// Every listed dependency of an entry stands strictly earlier: the
/// dependency order.
pub open spec fn deps_first(rs: Seq<StackView>) -> bool {
    forall|p: int, t: int|
        0 <= p < rs.len() && 0 <= t < rs[p].dependencies.len() && key_listed(
            rs,
            #[trigger] rs[p].dependencies[t],
        ) ==> key_listed_before(rs, p, rs[p].dependencies[t])
}

/// Every listed dependant of an entry stands strictly later.
pub open spec fn dependants_last(rs: Seq<StackView>) -> bool {
    forall|p: int, t: int|
        0 <= p < rs.len() && 0 <= t < rs[p].dependants.len() && key_listed(
            rs,
            #[trigger] rs[p].dependants[t],
        ) ==> key_listed_after(rs, p, rs[p].dependants[t])
}

/// Every listed dependant of an entry stands strictly earlier: the
/// teardown-safe order.
pub open spec fn dependants_first(rs: Seq<StackView>) -> bool {
    forall|p: int, t: int|
        0 <= p < rs.len() && 0 <= t < rs[p].dependants.len() && key_listed(
            rs,
            #[trigger] rs[p].dependants[t],
        ) ==> key_listed_before(rs, p, rs[p].dependants[t])
}

/// The shape of a forward-closure query result: distinct stacks of
/// the set, exactly the forward closure of the request, dependencies
/// first.
pub open spec fn forward_ordering(cv: ConfigView, names: Seq<Seq<char>>, rs: Seq<StackView>) -> bool {
    &&& all_from(cv.stacks, rs)
    &&& distinct_keys(rs)
    &&& deps_first(rs)
    &&& forall|j: int|
        valid_idx(cv.stacks, j) ==> (in_forward_closure(cv, names, j) <==> key_listed(
            rs,
            (#[trigger] cv.stacks[j]).key,
        ))
}

/// The shape of a backward-closure query result: distinct stacks of
/// the set, exactly the backward closure of the request, dependants
/// last.
pub open spec fn backward_ordering(cv: ConfigView, names: Seq<Seq<char>>, rs: Seq<StackView>) -> bool {
    &&& all_from(cv.stacks, rs)
    &&& distinct_keys(rs)
    &&& dependants_last(rs)
    &&& forall|j: int|
        valid_idx(cv.stacks, j) ==> (in_backward_closure(cv, names, j) <==> key_listed(
            rs,
            (#[trigger] cv.stacks[j]).key,
        ))
}

/// Clones a list of stacks, keeping every mathematical value.
pub fn clone_stacks(v: &Vec<Stack>) -> (r: Vec<Stack>)
    ensures
        r.deep_view() == v.deep_view(),
{
    let mut r: Vec<Stack> = Vec::new();
    let mut i: usize = 0;
    while i < v.len()
        invariant
            i <= v@.len(),
            r@.len() == i,
            forall|w: int| 0 <= w < i ==> (#[trigger] r@[w])@ == v@[w]@,
        decreases v@.len() - i,
    {
        r.push(v[i].clone());
        i = i + 1;
    }
    proof {
        assert(r.deep_view() =~= v.deep_view());
    }
    r
}

/// Whether some stack in the list carries the key.
pub fn contains_stack_key(v: &Vec<Stack>, key: &String) -> (r: bool)
    ensures
        r == key_listed(v.deep_view(), key@),
{
    let mut i: usize = 0;
    while i < v.len()
        invariant
            i <= v@.len(),
            forall|w: int| 0 <= w < i ==> (#[trigger] v.deep_view()[w]).key != key@,
        decreases v@.len() - i,
    {
        if v[i].key == *key {
            proof {
                assert(v.deep_view()[i as int].key == key@);
            }
            return true;
        }
        i = i + 1;
    }
    false
}

// --------------------------------------------------------------- queries
impl Config {
    /// The requested stacks together with everything they transitively
    /// depend on, in dependency order: every listed dependency of a
    /// stack stands strictly before it.
    pub fn stacks_with_dependencies(&self, list: &Vec<String>) -> (r: Result<Vec<Stack>, Error>)
        requires
            self@.well_formed(),
        ensures
            match r {
                Ok(v) => {
                    &&& forall|w: int|
                        0 <= w < list.deep_view().len() ==> has_key(
                            self@.stacks,
                            #[trigger] list.deep_view()[w],
                        )
                    &&& forward_ordering(self@, list.deep_view(), v.deep_view())
                },
                Err(e) => {
                    &&& e@ is UnknownStack
                    &&& !has_key(self@.stacks, e@->UnknownStack_name)
                    &&& exists|w: int|
                        0 <= w < list.deep_view().len() && #[trigger] list.deep_view()[w]
                            == e@->UnknownStack_name && forall|v: int|
                            0 <= v < w ==> has_key(self@.stacks, #[trigger] list.deep_view()[v])
                },
            },
    {
        let ghost cv = self@;
        let ghost ss = self@.stacks;
        let ghost names = list.deep_view();
        let mut m = match select_mask(&self.stacks, list) {
            Ok(m) => m,
            Err(e) => {
                proof {
                    let w = choose|w: int|
                        0 <= w < names.len() && #[trigger] names[w] == e@->UnknownStack_name
                            && forall|v: int| 0 <= v < w ==> has_key(ss, #[trigger] names[v]);
                }
                return Err(e);
            },
        };
        let ghost m0 = m@;
        let g = match resolve_deps(&self.stacks) {
            Ok(g) => g,
            Err(e) => {
                proof {
                    lemma_dangling_not_valid(ss, e@->DanglingDependency_key);
                    assert(false);
                }
                return Err(e);
            },
        };
        let ghost gv = graph_of(g);
        proof {
            assert(g_bounded(gv));
            lemma_forward_reach(ss, gv);
            lemma_forward_rank(ss, gv);
            lemma_sorted_keys_distinct(ss);
        }
        close_mask(&g, &mut m);
        let order = place(&g, &m);
        let result = collect_stacks(&self.stacks, &order);
        proof {
            let rs = result.deep_view();
            assert(rs.len() == result@.len());
            assert(forall|p: int| 0 <= p < rs.len() ==> #[trigger] rs[p] == result@[p]@);
            assert(forall|p: int|
                0 <= p < rs.len() ==> #[trigger] rs[p] == ss[order@[p] as int]);
            // selection mask describes the selected positions
            assert(forall|i: int|
                0 <= i < ss.len() ==> ((#[trigger] m0[i]) <==> cv.selected(names, i)));
            // closure membership
            assert forall|j: int| valid_idx(ss, j) implies ((#[trigger] m@[j])
                <==> in_forward_closure(cv, names, j)) by {
                if m@[j] {
                    let i = choose|i: int|
                        0 <= i < m0.len() && m0[i] && #[trigger] g_reaches(gv, i, j);
                    assert(cv.selected(names, i) && reaches(ss, i, j));
                }
                if in_forward_closure(cv, names, j) {
                    let i = choose|i: int|
                        #[trigger] cv.selected(names, i) && reaches(ss, i, j);
                    assert(m0[i] && g_reaches(gv, i, j));
                }
            }
            // membership as listed keys
            assert forall|j: int| valid_idx(ss, j) implies (in_forward_closure(cv, names, j)
                <==> key_listed(rs, (#[trigger] ss[j]).key)) by {
                if in_forward_closure(cv, names, j) {
                    assert(m@[j]);
                    assert(order@.contains(j as usize));
                    let p = choose|p: int|
                        0 <= p < order@.len() && #[trigger] order@[p] == j as usize;
                    assert(rs[p].key == ss[j].key);
                }
                if key_listed(rs, ss[j].key) {
                    let p = choose|p: int| 0 <= p < rs.len() && (#[trigger] rs[p]).key == ss[j].key;
                    let b = order@[p] as int;
                    assert(ss[b].key == ss[j].key);
                    assert(b == j);
                    assert(order@.contains(j as usize));
                    assert(m@[j]);
                }
            }
            assert(all_from(ss, rs)) by {
                assert forall|p: int| 0 <= p < rs.len() implies ss.contains(#[trigger] rs[p]) by {
                    let j = order@[p] as int;
                    assert(0 <= j < ss.len() && rs[p] == ss[j]);
                }
            }
            assert(distinct_keys(rs)) by {
                assert forall|p: int, q: int|
                    0 <= p < rs.len() && 0 <= q < rs.len() && p != q implies (
                #[trigger] rs[p]).key != (#[trigger] rs[q]).key by {
                    assert(order@[p] != order@[q]);
                    assert(rs[p] == ss[order@[p] as int] && rs[q] == ss[order@[q] as int]);
                }
            }
            assert(deps_first(rs)) by {
                assert forall|p: int, t: int|
                    0 <= p < rs.len() && 0 <= t < rs[p].dependencies.len() && key_listed(
                        rs,
                        #[trigger] rs[p].dependencies[t],
                    ) implies key_listed_before(rs, p, rs[p].dependencies[t]) by {
                    let a = order@[p] as int;
                    let k = rs[p].dependencies[t];
                    assert(rs[p] == ss[a]);
                    assert(k == ss[a].dependencies[t]);
                    let d = gv[a][t];
                    assert(ss[d as int].key == k);
                    let q = choose|q: int| 0 <= q < rs.len() && (#[trigger] rs[q]).key == k;
                    assert(ss[order@[q] as int].key == k);
                    assert(order@[q] as int == d as int);
                    assert(m@[d as int]);
                    assert(finished_before(order@, p, gv[a][t]));
                    let q2 = choose|q2: int| 0 <= q2 < p && #[trigger] order@[q2] == gv[a][t];
                    assert(rs[q2].key == ss[d as int].key);
                }
            }
        }
        Ok(result)
    }
}

impl Config {
    /// The requested stacks together with everything that transitively
    /// depends on them, in dependency order: every listed dependency
    /// of a stack stands strictly before it, so every listed dependant
    /// stands strictly after it. Reversing the result gives the
    /// teardown-safe order.
    pub fn stacks_with_dependants(&self, list: &Vec<String>) -> (r: Result<Vec<Stack>, Error>)
        requires
            self@.well_formed(),
        ensures
            match r {
                Ok(v) => {
                    &&& forall|w: int|
                        0 <= w < list.deep_view().len() ==> has_key(
                            self@.stacks,
                            #[trigger] list.deep_view()[w],
                        )
                    &&& backward_ordering(self@, list.deep_view(), v.deep_view())
                },
                Err(e) => {
                    &&& e@ is UnknownStack
                    &&& !has_key(self@.stacks, e@->UnknownStack_name)
                    &&& exists|w: int|
                        0 <= w < list.deep_view().len() && #[trigger] list.deep_view()[w]
                            == e@->UnknownStack_name && forall|v: int|
                            0 <= v < w ==> has_key(self@.stacks, #[trigger] list.deep_view()[v])
                },
            },
    {
        let ghost cv = self@;
        let ghost ss = self@.stacks;
        let ghost names = list.deep_view();
        let mut m = match select_mask(&self.stacks, list) {
            Ok(m) => m,
            Err(e) => {
                return Err(e);
            },
        };
        let ghost m0 = m@;
        proof {
            lemma_dependants_are_keys(ss);
            lemma_sorted_keys_distinct(ss);
        }
        let rg = resolve_dependants(&self.stacks);
        let ghost gv = graph_of(rg);
        proof {
            assert(g_bounded(gv));
            lemma_backward_reach(ss, gv);
            lemma_backward_rank(ss, gv);
        }
        close_mask(&rg, &mut m);
        let order = place(&rg, &m);
        // The scan placed every selected dependant of a stack before
        // it; the reverse is the dependency order.
        let mut rev: Vec<usize> = Vec::new();
        let mut q: usize = 0;
        while q < order.len()
            invariant
                q <= order@.len(),
                rev@.len() == q,
                forall|w: int|
                    0 <= w < q ==> (#[trigger] rev@[w]) == order@[order@.len() - 1 - w],
            decreases order@.len() - q,
        {
            rev.push(order[order.len() - 1 - q]);
            q = q + 1;
        }
        proof {
            assert(forall|p: int|
                0 <= p < rev@.len() ==> (#[trigger] rev@[p]) < self.stacks@.len());
        }
        let result = collect_stacks(&self.stacks, &rev);
        proof {
            let rs = result.deep_view();
            let ln = order@.len() as int;
            assert(rs.len() == ln);
            assert(forall|p: int| 0 <= p < rs.len() ==> #[trigger] rs[p] == result@[p]@);
            assert(forall|p: int| 0 <= p < rs.len() ==> #[trigger] rs[p] == ss[rev@[p] as int]);
            assert(forall|i: int|
                0 <= i < ss.len() ==> ((#[trigger] m0[i]) <==> cv.selected(names, i)));
            assert forall|j: int| valid_idx(ss, j) implies ((#[trigger] m@[j])
                <==> in_backward_closure(cv, names, j)) by {
                if m@[j] {
                    let i = choose|i: int|
                        0 <= i < m0.len() && m0[i] && #[trigger] g_reaches(gv, i, j);
                    assert(cv.selected(names, i) && reaches(ss, j, i));
                }
                if in_backward_closure(cv, names, j) {
                    let i = choose|i: int| #[trigger] cv.selected(names, i) && reaches(ss, j, i);
                    assert(m0[i] && g_reaches(gv, i, j));
                }
            }
            assert forall|j: int| valid_idx(ss, j) implies (in_backward_closure(cv, names, j)
                <==> key_listed(rs, (#[trigger] ss[j]).key)) by {
                if in_backward_closure(cv, names, j) {
                    assert(m@[j]);
                    assert(order@.contains(j as usize));
                    let p = choose|p: int|
                        0 <= p < order@.len() && #[trigger] order@[p] == j as usize;
                    assert(rev@[ln - 1 - p] == j as usize);
                    assert(rs[ln - 1 - p].key == ss[j].key);
                }
                if key_listed(rs, ss[j].key) {
                    let p = choose|p: int| 0 <= p < rs.len() && (#[trigger] rs[p]).key == ss[j].key;
                    let b = rev@[p] as int;
                    assert(ss[b].key == ss[j].key);
                    assert(b == j);
                    assert(order@[ln - 1 - p] == j as usize);
                    assert(order@.contains(j as usize));
                    assert(m@[j]);
                }
            }
            assert(all_from(ss, rs)) by {
                assert forall|p: int| 0 <= p < rs.len() implies ss.contains(#[trigger] rs[p]) by {
                    let j = rev@[p] as int;
                    assert(0 <= j < ss.len() && rs[p] == ss[j]);
                }
            }
            assert(distinct_keys(rs)) by {
                assert forall|p: int, q2: int|
                    0 <= p < rs.len() && 0 <= q2 < rs.len() && p != q2 implies (
                #[trigger] rs[p]).key != (#[trigger] rs[q2]).key by {
                    assert(rev@[p] == order@[ln - 1 - p] && rev@[q2] == order@[ln - 1 - q2]);
                    assert(order@[ln - 1 - p] != order@[ln - 1 - q2]);
                    assert(rs[p] == ss[rev@[p] as int] && rs[q2] == ss[rev@[q2] as int]);
                }
            }
            assert(dependants_last(rs)) by {
                assert forall|p: int, t: int|
                    0 <= p < rs.len() && 0 <= t < rs[p].dependants.len() && key_listed(
                        rs,
                        #[trigger] rs[p].dependants[t],
                    ) implies key_listed_after(rs, p, rs[p].dependants[t]) by {
                    let a = rev@[p] as int;
                    let k = rs[p].dependants[t];
                    assert(rs[p] == ss[a]);
                    assert(k == ss[a].dependants[t]);
                    let d = gv[a][t];
                    assert(ss[d as int].key == k);
                    let q2 = choose|q2: int| 0 <= q2 < rs.len() && (#[trigger] rs[q2]).key == k;
                    assert(ss[rev@[q2] as int].key == k);
                    assert(rev@[q2] as int == d as int);
                    assert(m@[d as int]);
                    let pos = ln - 1 - p;
                    assert(order@[pos] == a as usize);
                    assert(finished_before(order@, pos, gv[a][t]));
                    let q3 = choose|q3: int| 0 <= q3 < pos && #[trigger] order@[q3] == gv[a][t];
                    assert(rev@[ln - 1 - q3] == gv[a][t]);
                    assert(rs[ln - 1 - q3].key == ss[d as int].key);
                    assert(ln - 1 - q3 > p);
                }
            }
        }
        Ok(result)
    }
}

/// Reversing a list in which every listed dependant of a stack stands
/// later yields the teardown-safe order: every listed dependant then
/// stands strictly earlier than the stack it depends on.
pub proof fn lemma_reversed_teardown(rs: Seq<StackView>)
    requires
        dependants_last(rs),
    ensures
        dependants_first(rs.reverse()),
{
    let rv = rs.reverse();
    let n = rs.len() as int;
    assert forall|p: int, t: int|
        0 <= p < rv.len() && 0 <= t < rv[p].dependants.len() && key_listed(
            rv,
            #[trigger] rv[p].dependants[t],
        ) implies key_listed_before(rv, p, rv[p].dependants[t]) by {
        let p0 = n - 1 - p;
        assert(rv[p] == rs[p0]);
        let k = rv[p].dependants[t];
        assert(rs[p0].dependants[t] == k);
        let q = choose|q: int| 0 <= q < rv.len() && (#[trigger] rv[q]).key == k;
        assert(rs[n - 1 - q].key == k);
        assert(key_listed(rs, rs[p0].dependants[t]));
        assert(key_listed_after(rs, p0, rs[p0].dependants[t]));
        assert(key_listed_after(rs, p0, k));
        let q2 = choose|q2: int| p0 < q2 < rs.len() && (#[trigger] rs[q2]).key == k;
        assert(rv[n - 1 - q2].key == k);
        assert(0 <= n - 1 - q2 < p);
    }
}

// ----------------------------------------------------- plain selection
/// The stacks selected among the first `n`, in position order.
pub open spec fn selected_upto(cv: ConfigView, names: Seq<Seq<char>>, n: int) -> Seq<StackView>
    decreases n,
{
    if n <= 0 {
        Seq::empty()
    } else if cv.selected(names, n - 1) {
        selected_upto(cv, names, n - 1).push(cv.stacks[n - 1])
    } else {
        selected_upto(cv, names, n - 1)
    }
}

/// All selected stacks, in position (key) order.
pub open spec fn selected_stacks(cv: ConfigView, names: Seq<Seq<char>>) -> Seq<StackView> {
    selected_upto(cv, names, cv.stacks.len() as int)
}

impl Config {
    /// The requested stacks themselves, in key order, with no closure
    /// applied; an empty request selects every stack.
    pub fn stacks(&self, list: &Vec<String>) -> (r: Result<Vec<Stack>, Error>)
        requires
            self@.well_formed(),
        ensures
            match r {
                Ok(v) => {
                    &&& forall|w: int|
                        0 <= w < list.deep_view().len() ==> has_key(
                            self@.stacks,
                            #[trigger] list.deep_view()[w],
                        )
                    &&& v.deep_view() == selected_stacks(self@, list.deep_view())
                },
                Err(e) => {
                    &&& e@ is UnknownStack
                    &&& !has_key(self@.stacks, e@->UnknownStack_name)
                    &&& exists|w: int|
                        0 <= w < list.deep_view().len() && #[trigger] list.deep_view()[w]
                            == e@->UnknownStack_name && forall|v: int|
                            0 <= v < w ==> has_key(self@.stacks, #[trigger] list.deep_view()[v])
                },
            },
    {
        let ghost cv = self@;
        let ghost ss = self@.stacks;
        let ghost names = list.deep_view();
        let m = match select_mask(&self.stacks, list) {
            Ok(m) => m,
            Err(e) => {
                return Err(e);
            },
        };
        proof {
            assert(forall|i: int|
                0 <= i < ss.len() ==> ((#[trigger] m@[i]) <==> cv.selected(names, i)));
        }
        let n = self.stacks.len();
        let mut out: Vec<Stack> = Vec::new();
        let mut i: usize = 0;
        while i < n
            invariant
                cv == self@,
                ss == cv.stacks,
                names == list.deep_view(),
                n == ss.len(),
                i <= n,
                m@.len() == n,
                forall|a: int| 0 <= a < n ==> ((#[trigger] m@[a]) <==> cv.selected(names, a)),
                out.deep_view() == selected_upto(cv, names, i as int),
            decreases n - i,
        {
            if m[i] {
                out.push(self.stacks[i].clone());
                proof {
                    assert(out.deep_view() =~= selected_upto(cv, names, i + 1));
                }
            } else {
                proof {
                    assert(!cv.selected(names, i as int));
                }
            }
            i = i + 1;
        }
        Ok(out)
    }

    /// The single stack a single-stack command applies to: the
    /// request, with no closure, must select exactly one stack.
    pub fn stack(&self, list: &Vec<String>) -> (r: Result<Vec<Stack>, Error>)
        requires
            self@.well_formed(),
        ensures
            match r {
                Ok(v) => {
                    &&& forall|w: int|
                        0 <= w < list.deep_view().len() ==> has_key(
                            self@.stacks,
                            #[trigger] list.deep_view()[w],
                        )
                    &&& v.deep_view() == selected_stacks(self@, list.deep_view())
                    &&& v.deep_view().len() == 1
                },
                Err(e) => {
                    &&& (e@ is UnknownStack || e@ is StackCountError)
                    &&& (e@ is UnknownStack ==> !has_key(self@.stacks, e@->UnknownStack_name)
                        && exists|w: int|
                        0 <= w < list.deep_view().len() && #[trigger] list.deep_view()[w]
                            == e@->UnknownStack_name && forall|v: int|
                            0 <= v < w ==> has_key(self@.stacks, #[trigger] list.deep_view()[v]))
                    &&& (e@ is StackCountError ==> e@->StackCountError_count == selected_stacks(
                        self@,
                        list.deep_view(),
                    ).len() && e@->StackCountError_count != 1)
                },
            },
    {
        let v = match self.stacks(list) {
            Ok(v) => v,
            Err(e) => {
                return Err(e);
            },
        };
        if v.len() != 1 {
            Err(Error::StackCountError { count: v.len() })
        } else {
            Ok(v)
        }
    }
}

} // verus!
