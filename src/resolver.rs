use vstd::prelude::*;
use vstd::set_lib::{lemma_int_range, lemma_len_subset, set_int_range};
use crate::paths::{basename, dir_of, file_name, paired_source_name, parent_dir, source_name_for};

verus! {

/// The include graph of a project, as the resolver sees it.
///
/// Nodes are numbered: source candidate `i` is node `i`, header candidate `j`
/// is node `sources.len() + j`, and the entry file is the last node.
/// `includes[n]` holds the header names named by the include directives of
/// node `n`, or `None` when that file could not be read.
pub struct IncludeGraph {
    pub entry: String,
    pub sources: Vec<String>,
    pub headers: Vec<String>,
    pub includes: Vec<Option<Vec<String>>>,
}

/// Why a resolution failed.
pub enum ResolveError {
    /// A file that the entry point needs could not be read.
    Unreadable(String),
    /// The include directive pattern was refused by the pattern engine.
    BadPattern,
}

pub open spec fn views(v: Seq<String>) -> Seq<Seq<char>> {
    v.map_values(|s: String| s@)
}

/// `i` is the first candidate whose file name is `name`.
pub open spec fn is_first_named(cands: Seq<Seq<char>>, name: Seq<char>, i: int) -> bool {
    &&& 0 <= i < cands.len()
    &&& basename(cands[i]) == name
    &&& forall|j: int| 0 <= j < i ==> basename(#[trigger] cands[j]) != name
}

/// The candidate that a name resolves to: the first one, in catalog order,
/// whose file name equals it.
pub open spec fn lookup(cands: Seq<Seq<char>>, name: Seq<char>) -> Option<int> {
    if exists|i: int| is_first_named(cands, name, i) {
        Some(choose|i: int| is_first_named(cands, name, i))
    } else {
        None
    }
}

/// The mathematical model of an include graph: paths and names as character
/// sequences.
pub struct GraphModel {
    pub entry: Seq<char>,
    pub sources: Seq<Seq<char>>,
    pub headers: Seq<Seq<char>>,
    pub includes: Seq<Option<Seq<Seq<char>>>>,
}

pub open spec fn names_view(o: Option<Vec<String>>) -> Option<Seq<Seq<char>>> {
    match o {
        Some(v) => Some(views(v@)),
        None => None,
    }
}

impl View for IncludeGraph {
    type V = GraphModel;

    open spec fn view(&self) -> GraphModel {
        GraphModel {
            entry: self.entry@,
            sources: views(self.sources@),
            headers: views(self.headers@),
            includes: self.includes@.map_values(|o: Option<Vec<String>>| names_view(o)),
        }
    }
}

impl GraphModel {
    pub open spec fn entry_node(&self) -> int {
        (self.sources.len() + self.headers.len()) as int
    }

    pub open spec fn node_count(&self) -> int {
        self.entry_node() + 1
    }

    pub open spec fn well_formed(&self) -> bool {
        self.includes.len() == self.node_count()
    }

    pub open spec fn readable(&self, n: int) -> bool {
        self.includes[n] is Some
    }

    pub open spec fn name_count(&self, n: int) -> int {
        self.includes[n]->0.len() as int
    }

    pub open spec fn name_at(&self, n: int, k: int) -> Seq<char> {
        self.includes[n]->0[k]
    }

    /// The path of node `n`.
    pub open spec fn node_path(&self, n: int) -> Seq<char> {
        if n < self.sources.len() {
            self.sources[n]
        } else if n < self.entry_node() {
            self.headers[n - self.sources.len()]
        } else {
            self.entry
        }
    }

    /// The header node that an include of `name` reaches, if any.
    pub open spec fn header_hit(&self, name: Seq<char>) -> Option<int> {
        match lookup(self.headers, name) {
            Some(j) => Some(self.sources.len() + j),
            None => None,
        }
    }

    /// The source node paired with an include of `name`, if any.
    pub open spec fn source_hit(&self, name: Seq<char>) -> Option<int> {
        lookup(self.sources, paired_source_name(name))
    }

    /// Both nodes that an include of `name` reaches lie in `s`.
    pub open spec fn targets_in(&self, s: Set<int>, name: Seq<char>) -> bool {
        &&& (self.header_hit(name) is Some ==> s.contains(self.header_hit(name)->0))
        &&& (self.source_hit(name) is Some ==> s.contains(self.source_hit(name)->0))
    }

    /// `s` is closed under the include edges of its readable nodes.
    pub open spec fn closed(&self, s: Set<int>) -> bool {
        forall|n: int, k: int|
            s.contains(n) && self.readable(n) && 0 <= k < self.name_count(n)
                ==> #[trigger] self.targets_in(s, self.name_at(n, k))
    }

    /// The nodes reachable from the entry file: those in every closed set that
    /// holds the entry node.
    pub open spec fn reached(&self) -> Set<int> {
        Set::new(
            |n: int|
                forall|s: Set<int>|
                    #[trigger] self.closed(s) && s.contains(self.entry_node()) ==> s.contains(n),
        )
    }

    /// Every file that the entry point needs could be read.
    pub open spec fn all_readable(&self) -> bool {
        forall|n: int| #[trigger] self.reached().contains(n) ==> self.readable(n)
    }

    /// The source files to compile: the entry file and every reached source.
    pub open spec fn needed_sources(&self) -> Set<Seq<char>> {
        Set::new(
            |p: Seq<char>|
                exists|i: int|
                    0 <= i < self.sources.len() && #[trigger] self.reached().contains(i) && p
                        == self.sources[i],
        ).insert(self.entry)
    }

    /// The include directories: the directory of every reached header.
    pub open spec fn include_dirs(&self) -> Set<Seq<char>> {
        Set::new(
            |d: Seq<char>|
                exists|j: int|
                    0 <= j < self.headers.len() && #[trigger] self.reached().contains(
                        self.sources.len() + j,
                    ) && d == dir_of(self.headers[j]),
        )
    }

    /// Every node that an include of `name` reaches is marked in `vis`.
    pub open spec fn targets_marked(&self, vis: Seq<bool>, name: Seq<char>) -> bool {
        &&& (self.header_hit(name) is Some ==> vis[self.header_hit(name)->0])
        &&& (self.source_hit(name) is Some ==> vis[self.source_hit(name)->0])
    }

}

impl GraphModel {
    /// `r` is what resolving this graph gives: on success the needed source
    /// files and the include directories, each once; otherwise a reached file
    /// that could not be read.
    pub open spec fn resolves_to(self, r: Result<(Vec<String>, Vec<String>), ResolveError>) -> bool {
        match r {
            Ok((srcs, dirs)) => {
                &&& self.all_readable()
                &&& views(srcs@).to_set() == self.needed_sources()
                &&& views(srcs@).no_duplicates()
                &&& views(dirs@).to_set() == self.include_dirs()
                &&& views(dirs@).no_duplicates()
            },
            Err(ResolveError::Unreadable(p)) => {
                &&& !self.all_readable()
                &&& exists|n: int|
                    #[trigger] self.reached().contains(n) && !self.readable(n) && p@
                        == self.node_path(n)
            },
            Err(ResolveError::BadPattern) => false,
        }
    }
}

/// A copy of `v`.
pub fn copy_strings(v: &Vec<String>) -> (r: Vec<String>)
    ensures
        r@ == v@,
{
    let mut r: Vec<String> = Vec::new();
    let mut i: usize = 0;
    while i < v.len()
        invariant
            i <= v@.len(),
            r@ == v@.subrange(0, i as int),
        decreases v@.len() - i,
    {
        r.push(v[i].clone());
        assert(r@ =~= v@.subrange(0, i + 1));
        i = i + 1;
    }
    assert(r@ =~= v@);
    r
}

/// Looks `name` up among `cands` by file name; the first match in catalog
/// order wins, so of two candidates with one file name the later is never
/// chosen.
pub fn find_named(cands: &Vec<String>, name: &String) -> (r: Option<usize>)
    ensures
        match r {
            Some(i) => lookup(views(cands@), name@) == Some(i as int),
            None => lookup(views(cands@), name@) is None,
        },
{
    let ghost cs = views(cands@);
    let mut i: usize = 0;
    while i < cands.len()
        invariant
            i <= cands@.len(),
            cs == views(cands@),
            forall|j: int| 0 <= j < i ==> basename(#[trigger] cs[j]) != name@,
        decreases cands@.len() - i,
    {
        let f = file_name(cands[i].as_str());
        if f == *name {
            proof {
                assert(is_first_named(cs, name@, i as int));
                let c = choose|c: int| is_first_named(cs, name@, c);
                assert(c == i as int) by {
                    if c < i {
                        assert(basename(cs[c]) != name@);
                    } else if c > i {
                        assert(basename(cs[i as int]) == name@);
                    }
                }
            }
            return Some(i);
        }
        i = i + 1;
    }
    None
}


/// The set of marked positions of `vis`.
pub open spec fn marked(vis: Seq<bool>) -> Set<int> {
    Set::new(|n: int| 0 <= n < vis.len() && vis[n])
}

proof fn lemma_distinct_bound(o: Seq<int>, n: int)
    requires
        0 <= n,
        o.no_duplicates(),
        forall|i: int| 0 <= i < o.len() ==> 0 <= #[trigger] o[i] < n,
    ensures
        o.len() <= n,
{
    o.unique_seq_to_set();
    assert(o.to_set().subset_of(set_int_range(0, n)));
    lemma_int_range(0, n);
    lemma_len_subset(o.to_set(), set_int_range(0, n));
}

/// Appends `s` to `v` unless `v` already holds an equal string.
fn push_unique(v: &mut Vec<String>, s: String)
    requires
        views(old(v)@).no_duplicates(),
    ensures
        views(final(v)@).no_duplicates(),
        views(final(v)@).to_set() == views(old(v)@).to_set().insert(s@),
{
    let mut i: usize = 0;
    while i < v.len()
        invariant
            i <= v@.len(),
            v@ == old(v)@,
            views(v@).no_duplicates(),
            forall|j: int| 0 <= j < i ==> v@[j]@ != s@,
        decreases v@.len() - i,
    {
        if v[i] == s {
            proof {
                assert(views(v@)[i as int] == s@);
                assert(views(v@).to_set().insert(s@) =~= views(v@).to_set());
            }
            return;
        }
        i = i + 1;
    }
    let ghost before = views(v@);
    v.push(s);
    proof {
        assert(views(v@) =~= before.push(s@));
        assert(forall|j: int| 0 <= j < before.len() ==> before[j] != s@);
        before.lemma_push_to_set_commute(s@);
    }
}

impl IncludeGraph {
    /// The path of node `n`.
    pub fn path_of(&self, n: usize) -> (r: String)
        requires
            self@.well_formed(),
            n < self@.node_count(),
        ensures
            r@ == self@.node_path(n as int),
    {
        if n < self.sources.len() {
            self.sources[n].clone()
        } else if n < self.includes.len() - 1 {
            self.headers[n - self.sources.len()].clone()
        } else {
            self.entry.clone()
        }
    }
}

impl IncludeGraph {
    /// Marks `t` as visited and schedules it, unless it was visited already.
    fn visit(
        &self,
        t: usize,
        visited: &mut Vec<bool>,
        stack: &mut Vec<usize>,
        order: Ghost<Seq<int>>,
    ) -> (new_order: Ghost<Seq<int>>)
        requires
            t < old(visited)@.len(),
            order@.no_duplicates(),
            forall|i: int| 0 <= i < order@.len() ==> 0 <= #[trigger] order@[i] < old(visited)@.len(),
            forall|m: int| 0 <= m < old(visited)@.len() ==> (#[trigger] old(visited)@[m] <==> order@.contains(m)),
            old(stack)@.no_duplicates(),
            forall|i: int| 0 <= i < old(stack)@.len() ==> #[trigger] old(stack)@[i] < old(visited)@.len() && old(visited)@[old(stack)@[i] as int],
        ensures
            final(visited)@ == old(visited)@.update(t as int, true),
            new_order@.no_duplicates(),
            forall|i: int| 0 <= i < new_order@.len() ==> 0 <= #[trigger] new_order@[i] < final(visited)@.len(),
            forall|m: int| 0 <= m < final(visited)@.len() ==> (#[trigger] final(visited)@[m] <==> new_order@.contains(m)),
            final(stack)@.no_duplicates(),
            forall|i: int| 0 <= i < final(stack)@.len() ==> #[trigger] final(stack)@[i] < final(visited)@.len() && final(visited)@[final(stack)@[i] as int],
            forall|x: usize| #[trigger] final(stack)@.contains(x) ==> old(stack)@.contains(x) || x == t,
            forall|x: usize| old(stack)@.contains(x) ==> #[trigger] final(stack)@.contains(x),
            old(visited)@[t as int] ==> final(stack)@ == old(stack)@ && new_order@ == order@,
            forall|m: int|
                0 <= m < final(visited)@.len() && #[trigger] final(visited)@[m] && !final(stack)@.contains(m as usize)
                    ==> old(visited)@[m] && !old(stack)@.contains(m as usize),
            !old(visited)@[t as int] ==> final(stack)@.len() == old(stack)@.len() + 1 && new_order@.len() == order@.len() + 1,
    {
        if visited[t] {
            proof {
                assert(old(visited)@.update(t as int, true) =~= old(visited)@);
            }
            return order;
        }
        visited.set(t, true);
        let ghost before = stack@;
        stack.push(t);
        proof {
            assert(!order@.contains(t as int));
            assert(!before.contains(t));
            assert(stack@[before.len() as int] == t);
            assert forall|x: usize| #[trigger] stack@.contains(x) implies before.contains(x) || x == t by {
                let i = choose|i: int| 0 <= i < stack@.len() && stack@[i] == x;
                if i < before.len() {
                    assert(before[i] == x);
                }
            }
            assert forall|x: usize| before.contains(x) implies #[trigger] stack@.contains(x) by {
                let i = choose|i: int| 0 <= i < before.len() && before[i] == x;
                assert(stack@[i] == x);
            }
            let o2 = order@.push(t as int);
            assert forall|m: int| 0 <= m < visited@.len() implies (#[trigger] visited@[m] <==> o2.contains(m)) by {
                if m == t as int {
                    assert(o2[order@.len() as int] == m);
                } else if order@.contains(m) {
                    let i = choose|i: int| 0 <= i < order@.len() && order@[i] == m;
                    assert(o2[i] == m);
                } else if o2.contains(m) {
                    let i = choose|i: int| 0 <= i < o2.len() && o2[i] == m;
                    assert(order@[i] == m);
                }
            }
        }
        Ghost(order@.push(t as int))
    }
}

impl IncludeGraph {
    /// Walks the include graph from the entry file and marks every reached
    /// node; fails on the first reached file that could not be read.
    fn traverse(&self) -> (r: Result<Vec<bool>, ResolveError>)
        requires
            self@.well_formed(),
        ensures
            match r {
                Ok(vis) => {
                    &&& vis@.len() == self@.node_count()
                    &&& marked(vis@) == self@.reached()
                    &&& self@.all_readable()
                },
                Err(ResolveError::Unreadable(p)) => exists|n: int|
                    #[trigger] self@.reached().contains(n) && !self@.readable(n) && p@
                        == self@.node_path(n),
                Err(ResolveError::BadPattern) => false,
            },
    {
        let total = self.includes.len();
        let entry = total - 1;
        let mut visited: Vec<bool> = Vec::new();
        let mut i: usize = 0;
        while i < total
            invariant
                i <= total,
                visited@.len() == i,
                forall|m: int| 0 <= m < i ==> !#[trigger] visited@[m],
            decreases total - i,
        {
            visited.push(false);
            i = i + 1;
        }
        visited.set(entry, true);
        let mut stack: Vec<usize> = Vec::new();
        stack.push(entry);
        let ghost mut order: Seq<int> = seq![entry as int];
        proof {
            assert(stack@[0] == entry);
            assert(stack@.contains(entry));
            assert forall|m: int| 0 <= m < total implies (#[trigger] visited@[m] <==> order.contains(m)) by {
                if m == entry {
                    assert(order[0] == m);
                }
            }
            assert forall|s: Set<int>| #[trigger] self@.closed(s) && s.contains(entry as int) implies marked(visited@).subset_of(s) by {
                assert forall|m: int| marked(visited@).contains(m) implies s.contains(m) by {
                    assert(m == entry);
                }
            }
        }
        while stack.len() > 0
            invariant
                total == self.includes@.len(),
                total == self@.node_count(),
                entry == self@.entry_node(),
                visited@.len() == total,
                visited@[entry as int],
                order.no_duplicates(),
                order.len() <= total,
                forall|i: int| 0 <= i < order.len() ==> 0 <= #[trigger] order[i] < total,
                forall|m: int| 0 <= m < total ==> (#[trigger] visited@[m] <==> order.contains(m)),
                stack@.no_duplicates(),
                forall|i: int| 0 <= i < stack@.len() ==> #[trigger] stack@[i] < total && visited@[stack@[i] as int],
                forall|m: int| 0 <= m < total && #[trigger] visited@[m] && !stack@.contains(m as usize) ==> self@.readable(m),
                forall|m: int, k: int|
                    0 <= m < total && visited@[m] && !stack@.contains(m as usize) && self@.readable(m) && 0 <= k < self@.name_count(m)
                        ==> self@.targets_marked(visited@, #[trigger] self@.name_at(m, k)),
                forall|s: Set<int>| #[trigger] self@.closed(s) && s.contains(entry as int) ==> marked(visited@).subset_of(s),
            decreases 2 * (total - order.len()) + stack@.len(),
        {
            let ghost measure = 2 * (total - order.len()) + stack@.len();
            let ghost stack0 = stack@;
            let n = stack.pop().unwrap();
            proof {
                assert(stack0 =~= stack@.push(n));
                assert(stack0[stack@.len() as int] == n);
                assert(!stack@.contains(n)) by {
                    if stack@.contains(n) {
                        let i = choose|i: int| 0 <= i < stack@.len() && stack@[i] == n;
                        assert(stack0[i] == n);
                    }
                }
                assert forall|x: usize| #[trigger] stack@.contains(x) implies stack0.contains(x) by {
                    let i = choose|i: int| 0 <= i < stack@.len() && stack@[i] == x;
                    assert(stack0[i] == x);
                }
            }
            match &self.includes[n] {
                None => {
                    proof {
                        assert(marked(visited@).contains(n as int));
                        assert forall|s: Set<int>| #[trigger] self@.closed(s) && s.contains(self@.entry_node()) implies s.contains(n as int) by {
                            assert(marked(visited@).subset_of(s));
                        }
                        assert(self@.reached().contains(n as int));
                    }
                    return Err(ResolveError::Unreadable(self.path_of(n)));
                },
                Some(names) => {
                    let mut k: usize = 0;
                    while k < names.len()
                        invariant
                            self@.includes[n as int] == names_view(Some(*names)),
                            n < total,
                            !stack@.contains(n),
                            total == self.includes@.len(),
                            total == self@.node_count(),
                            entry == self@.entry_node(),
                            visited@.len() == total,
                            visited@[entry as int],
                            visited@[n as int],
                            k <= names@.len(),
                            order.no_duplicates(),
                            order.len() <= total,
                            forall|i: int| 0 <= i < order.len() ==> 0 <= #[trigger] order[i] < total,
                            forall|m: int| 0 <= m < total ==> (#[trigger] visited@[m] <==> order.contains(m)),
                            stack@.no_duplicates(),
                            forall|i: int| 0 <= i < stack@.len() ==> #[trigger] stack@[i] < total && visited@[stack@[i] as int],
                            forall|m: int| 0 <= m < total && #[trigger] visited@[m] && !stack@.contains(m as usize) && m != n ==> self@.readable(m),
                            forall|m: int, kk: int|
                                0 <= m < total && visited@[m] && !stack@.contains(m as usize) && m != n && self@.readable(m) && 0 <= kk < self@.name_count(m)
                                    ==> self@.targets_marked(visited@, #[trigger] self@.name_at(m, kk)),
                            forall|kk: int| 0 <= kk < k ==> self@.targets_marked(visited@, #[trigger] self@.name_at(n as int, kk)),
                            forall|s: Set<int>| #[trigger] self@.closed(s) && s.contains(entry as int) ==> marked(visited@).subset_of(s),
                            2 * (total - order.len()) + stack@.len() < measure,
                        decreases names@.len() - k,
                    {
                        let name = &names[k];
                        let ghost nm = name@;
                        assert(nm == self@.name_at(n as int, k as int));
                        match find_named(&self.headers, name) {
                            Some(j) => {
                                let t = self.sources.len() + j;
                                let ghost v0 = visited@;
                                proof {
                                    assert forall|s: Set<int>| #[trigger] self@.closed(s) && s.contains(entry as int) implies s.contains(t as int) by {
                                        assert(marked(visited@).contains(n as int));
                                        assert(self@.targets_in(s, self@.name_at(n as int, k as int)));
                                    }
                                }
                                let o = self.visit(t, &mut visited, &mut stack, Ghost(order));
                                proof {
                                    order = o@;
                                    assert forall|s: Set<int>| #[trigger] self@.closed(s) && s.contains(entry as int) implies marked(visited@).subset_of(s) by {
                                        assert(marked(v0).subset_of(s));
                                    }
                                }
                            },
                            None => {},
                        }
                        let sname = source_name_for(name.as_str());
                        match find_named(&self.sources, &sname) {
                            Some(c) => {
                                let ghost v0 = visited@;
                                proof {
                                    assert forall|s: Set<int>| #[trigger] self@.closed(s) && s.contains(entry as int) implies s.contains(c as int) by {
                                        assert(marked(visited@).contains(n as int));
                                        assert(self@.targets_in(s, self@.name_at(n as int, k as int)));
                                    }
                                }
                                let o = self.visit(c, &mut visited, &mut stack, Ghost(order));
                                proof {
                                    order = o@;
                                    assert forall|s: Set<int>| #[trigger] self@.closed(s) && s.contains(entry as int) implies marked(visited@).subset_of(s) by {
                                        assert(marked(v0).subset_of(s));
                                    }
                                }
                            },
                            None => {},
                        }
                        proof {
                            lemma_distinct_bound(order, total as int);
                        }
                        k = k + 1;
                    }
                },
            }
        }
        proof {
            let vs = marked(visited@);
            assert(self@.closed(vs)) by {
                assert forall|m: int, k: int|
                    vs.contains(m) && self@.readable(m) && 0 <= k < self@.name_count(m)
                        implies #[trigger] self@.targets_in(vs, self@.name_at(m, k)) by {
                    assert(self@.targets_marked(visited@, self@.name_at(m, k)));
                }
            }
            assert forall|m: int| #[trigger] self@.reached().contains(m) <==> vs.contains(m) by {
                if self@.reached().contains(m) {
                    assert(vs.contains(entry as int));
                } else if vs.contains(m) {
                    assert forall|s: Set<int>| #[trigger] self@.closed(s) && s.contains(self@.entry_node()) implies s.contains(m) by {
                        assert(vs.subset_of(s));
                    }
                }
            }
            assert(vs =~= self@.reached());
        }
        Ok(visited)
    }
}

impl IncludeGraph {
    /// Resolves the entry file: the source files needed to build it, and the
    /// include directories, each listed once. Unknown headers (system headers)
    /// are skipped; cycles end at files already visited.
    pub fn resolve(&self) -> (r: Result<(Vec<String>, Vec<String>), ResolveError>)
        requires
            self@.well_formed(),
        ensures
            self@.resolves_to(r),
    {
        let visited = match self.traverse() {
            Ok(v) => v,
            Err(e) => {
                return Err(e);
            },
        };
        let ns = self.sources.len();
        let nh = self.headers.len();
        let ghost reached = self@.reached();
        let mut srcs: Vec<String> = Vec::new();
        let mut i: usize = 0;
        while i < ns
            invariant
                i <= ns,
                ns == self.sources@.len(),
                visited@.len() == self@.node_count(),
                marked(visited@) == reached,
                reached == self@.reached(),
                views(srcs@).no_duplicates(),
                views(srcs@).to_set() == Set::new(
                    |p: Seq<char>|
                        exists|i2: int|
                            0 <= i2 < i && #[trigger] reached.contains(i2) && p == self@.sources[i2],
                ),
            decreases ns - i,
        {
            let ghost before = views(srcs@).to_set();
            if visited[i] {
                assert(reached.contains(i as int));
                push_unique(&mut srcs, self.sources[i].clone());
            }
            proof {
                assert(views(srcs@).to_set() =~= Set::new(
                    |p: Seq<char>|
                        exists|i2: int|
                            0 <= i2 < i + 1 && #[trigger] reached.contains(i2) && p == self@.sources[i2],
                )) by {
                    assert forall|p: Seq<char>| before.contains(p) implies exists|i2: int|
                            0 <= i2 < i + 1 && #[trigger] reached.contains(i2) && p == self@.sources[i2] by {
                        let i2 = choose|i2: int| 0 <= i2 < i && #[trigger] reached.contains(i2) && p == self@.sources[i2];
                    }
                    assert forall|p: Seq<char>| (exists|i2: int|
                            0 <= i2 < i + 1 && #[trigger] reached.contains(i2) && p == self@.sources[i2]) implies views(srcs@).to_set().contains(p) by {
                        let i2 = choose|i2: int| 0 <= i2 < i + 1 && #[trigger] reached.contains(i2) && p == self@.sources[i2];
                        if i2 < i {
                            assert(before.contains(p));
                        }
                    }
                }
            }
            i = i + 1;
        }
        push_unique(&mut srcs, self.entry.clone());
        proof {
            assert(views(srcs@).to_set() =~= self@.needed_sources());
        }
        let mut dirs: Vec<String> = Vec::new();
        let vlen = visited.len();
        let mut j: usize = 0;
        while j < nh
            invariant
                j <= nh,
                ns == self.sources@.len(),
                nh == self.headers@.len(),
                visited@.len() == self@.node_count(),
                visited@.len() == ns + nh + 1,
                vlen == visited@.len(),
                marked(visited@) == reached,
                reached == self@.reached(),
                views(dirs@).no_duplicates(),
                views(dirs@).to_set() == Set::new(
                    |d: Seq<char>|
                        exists|j2: int|
                            0 <= j2 < j && #[trigger] reached.contains(ns + j2) && d == dir_of(self@.headers[j2]),
                ),
            decreases nh - j,
        {
            let ghost before = views(dirs@).to_set();
            if visited[ns + j] {
                assert(reached.contains(ns + j));
                push_unique(&mut dirs, parent_dir(self.headers[j].as_str()));
            }
            proof {
                assert(views(dirs@).to_set() =~= Set::new(
                    |d: Seq<char>|
                        exists|j2: int|
                            0 <= j2 < j + 1 && #[trigger] reached.contains(ns + j2) && d == dir_of(self@.headers[j2]),
                )) by {
                    assert forall|d: Seq<char>| before.contains(d) implies exists|j2: int|
                            0 <= j2 < j + 1 && #[trigger] reached.contains(ns + j2) && d == dir_of(self@.headers[j2]) by {
                        let j2 = choose|j2: int| 0 <= j2 < j && #[trigger] reached.contains(ns + j2) && d == dir_of(self@.headers[j2]);
                    }
                    assert forall|d: Seq<char>| (exists|j2: int|
                            0 <= j2 < j + 1 && #[trigger] reached.contains(ns + j2) && d == dir_of(self@.headers[j2])) implies views(dirs@).to_set().contains(d) by {
                        let j2 = choose|j2: int| 0 <= j2 < j + 1 && #[trigger] reached.contains(ns + j2) && d == dir_of(self@.headers[j2]);
                        if j2 < j {
                            assert(before.contains(d));
                        }
                    }
                }
            }
            j = j + 1;
        }
        proof {
            assert(views(dirs@).to_set() =~= self@.include_dirs());
        }
        Ok((srcs, dirs))
    }
}

/// The entry file is always reached.
pub proof fn lemma_entry_reached(g: GraphModel)
    ensures
        g.reached().contains(g.entry_node()),
{
}

/// What a reached, readable file includes is reached too.
pub proof fn lemma_reached_closed(g: GraphModel)
    ensures
        g.closed(g.reached()),
{
    assert forall|n: int, k: int|
        g.reached().contains(n) && g.readable(n) && 0 <= k < g.name_count(n)
            implies #[trigger] g.targets_in(g.reached(), g.name_at(n, k)) by {
        let name = g.name_at(n, k);
        if g.header_hit(name) is Some {
            assert forall|s: Set<int>| #[trigger] g.closed(s) && s.contains(g.entry_node())
                implies s.contains(g.header_hit(name)->0) by {
                assert(s.contains(n));
                assert(g.targets_in(s, g.name_at(n, k)));
            }
        }
        if g.source_hit(name) is Some {
            assert forall|s: Set<int>| #[trigger] g.closed(s) && s.contains(g.entry_node())
                implies s.contains(g.source_hit(name)->0) by {
                assert(s.contains(n));
                assert(g.targets_in(s, g.name_at(n, k)));
            }
        }
    }
}

/// Nothing is pulled into a build but through include chains: every reached
/// file other than the entry is the header, or the paired source, that an
/// include directive of some reached file names.
pub proof fn lemma_reached_only_through_includes(g: GraphModel, n: int)
    requires
        g.reached().contains(n),
        n != g.entry_node(),
    ensures
        exists|m: int, k: int|
            g.reached().contains(m) && g.readable(m) && 0 <= k < g.name_count(m) && (
            g.header_hit(#[trigger] g.name_at(m, k)) == Some(n) || g.source_hit(g.name_at(m, k))
                == Some(n)),
{
    let r = g.reached();
    let s = Set::new(
        |x: int|
            x == g.entry_node() || exists|m: int, k: int|
                r.contains(m) && g.readable(m) && 0 <= k < g.name_count(m) && (
                g.header_hit(#[trigger] g.name_at(m, k)) == Some(x) || g.source_hit(g.name_at(m, k))
                    == Some(x)),
    );
    lemma_reached_closed(g);
    assert forall|x: int| #[trigger] s.contains(x) implies r.contains(x) by {
        if x != g.entry_node() {
            let (m, k) = choose|m: int, k: int|
                r.contains(m) && g.readable(m) && 0 <= k < g.name_count(m) && (
                g.header_hit(#[trigger] g.name_at(m, k)) == Some(x) || g.source_hit(g.name_at(m, k))
                    == Some(x));
            assert(g.targets_in(r, g.name_at(m, k)));
        }
    }
    assert(g.closed(s)) by {
        assert forall|x: int, k: int|
            s.contains(x) && g.readable(x) && 0 <= k < g.name_count(x)
                implies #[trigger] g.targets_in(s, g.name_at(x, k)) by {
            assert(r.contains(x));
        }
    }
    assert(s.contains(g.entry_node()));
}

/// An include directive of a header that no catalog header is named like
/// (a system header) adds no header to the build: every include directory
/// is that of a catalog header whose file name some reached file includes.
pub proof fn lemma_include_dirs_named(g: GraphModel, d: Seq<char>)
    requires
        g.include_dirs().contains(d),
    ensures
        exists|j: int, m: int, k: int|
            0 <= j < g.headers.len() && g.reached().contains(m) && g.readable(m) && 0 <= k
                < g.name_count(m) && basename(#[trigger] g.headers[j]) == #[trigger] g.name_at(m, k)
                && d == dir_of(g.headers[j]),
{
    let j = choose|j: int|
        0 <= j < g.headers.len() && #[trigger] g.reached().contains(g.sources.len() + j) && d
            == dir_of(g.headers[j]);
    let n = g.sources.len() + j;
    assert(n != g.entry_node());
    lemma_reached_only_through_includes(g, n);
    let (m, k) = choose|m: int, k: int|
        g.reached().contains(m) && g.readable(m) && 0 <= k < g.name_count(m) && (
        g.header_hit(#[trigger] g.name_at(m, k)) == Some(n) || g.source_hit(g.name_at(m, k))
            == Some(n));
    let name = g.name_at(m, k);
    if g.source_hit(name) == Some(n) {
        let c = choose|i: int| is_first_named(g.sources, paired_source_name(name), i);
        assert(false);
    }
    let h = choose|i: int| is_first_named(g.headers, name, i);
    assert(is_first_named(g.headers, name, h));
}

/// Of two candidates with the same file name, the later in catalog order is
/// never chosen.
pub proof fn lemma_first_match_wins(cands: Seq<Seq<char>>, name: Seq<char>, i: int, j: int)
    requires
        0 <= i < j < cands.len(),
        basename(cands[i]) == name,
        basename(cands[j]) == name,
    ensures
        lookup(cands, name) is Some,
        lookup(cands, name) != Some(j),
{
    if lookup(cands, name) is None {
        assert(!is_first_named(cands, name, i));
        let c = choose|c: int| 0 <= c < i && basename(#[trigger] cands[c]) == name;
        lemma_some_first(cands, name, c);
    }
}

proof fn lemma_some_first(cands: Seq<Seq<char>>, name: Seq<char>, i: int)
    requires
        0 <= i < cands.len(),
        basename(cands[i]) == name,
    ensures
        lookup(cands, name) is Some,
    decreases i,
{
    if !is_first_named(cands, name, i) {
        let c = choose|c: int| 0 <= c < i && basename(#[trigger] cands[c]) == name;
        lemma_some_first(cands, name, c);
    }
}

/// Of two headers with one file name, the later in catalog order is never
/// part of a build: resolution is ambiguous but not an error, and the first
/// header of that name is the one used.
pub proof fn lemma_shadowed_header_never_reached(g: GraphModel, i: int, j: int)
    requires
        0 <= i < j < g.headers.len(),
        basename(g.headers[i]) == basename(g.headers[j]),
    ensures
        !g.reached().contains(g.sources.len() + j),
{
    let n = g.sources.len() + j;
    if g.reached().contains(n) {
        lemma_reached_only_through_includes(g, n);
        let (m, k) = choose|m: int, k: int|
            g.reached().contains(m) && g.readable(m) && 0 <= k < g.name_count(m) && (
            g.header_hit(#[trigger] g.name_at(m, k)) == Some(n) || g.source_hit(g.name_at(m, k))
                == Some(n));
        let name = g.name_at(m, k);
        if g.source_hit(name) == Some(n) {
            let c = choose|c: int| is_first_named(g.sources, paired_source_name(name), c);
            assert(false);
        }
        let h = choose|c: int| is_first_named(g.headers, name, c);
        assert(is_first_named(g.headers, name, h));
        assert(h == j);
        assert(basename(g.headers[i]) != name);
    }
}

/// Of two source files with one file name, the later in catalog order is
/// never pulled into a build.
pub proof fn lemma_shadowed_source_never_reached(g: GraphModel, i: int, j: int)
    requires
        0 <= i < j < g.sources.len(),
        basename(g.sources[i]) == basename(g.sources[j]),
    ensures
        !g.reached().contains(j),
{
    if g.reached().contains(j) {
        assert(j != g.entry_node());
        lemma_reached_only_through_includes(g, j);
        let (m, k) = choose|m: int, k: int|
            g.reached().contains(m) && g.readable(m) && 0 <= k < g.name_count(m) && (
            g.header_hit(#[trigger] g.name_at(m, k)) == Some(j) || g.source_hit(g.name_at(m, k))
                == Some(j));
        let name = g.name_at(m, k);
        if g.header_hit(name) == Some(j) {
            let c = choose|c: int| is_first_named(g.headers, name, c);
            assert(false);
        }
        let pn = paired_source_name(name);
        let c = choose|c: int| is_first_named(g.sources, pn, c);
        assert(is_first_named(g.sources, pn, c));
        assert(c == j);
        assert(basename(g.sources[i]) != pn);
    }
}

impl GraphModel {
    /// This graph with include name `k` of node `m` deleted.
    pub open spec fn without_include(self, m: int, k: int) -> GraphModel {
        GraphModel {
            includes: self.includes.update(m, Some(self.includes[m]->0.remove(k))),
            ..self
        }
    }
}

/// An include directive that names neither a catalog header nor, through its
/// paired name, a catalog source (a system header such as `stdio.h`) changes
/// nothing: deleting it leaves the reached files, the source files, the
/// include directories and success all as they were.
pub proof fn lemma_unknown_include_changes_nothing(g: GraphModel, m: int, k: int)
    requires
        g.well_formed(),
        0 <= m < g.node_count(),
        g.readable(m),
        0 <= k < g.name_count(m),
        g.header_hit(g.name_at(m, k)) is None,
        g.source_hit(g.name_at(m, k)) is None,
    ensures
        g.without_include(m, k).reached() == g.reached(),
        g.without_include(m, k).needed_sources() == g.needed_sources(),
        g.without_include(m, k).include_dirs() == g.include_dirs(),
        g.without_include(m, k).all_readable() == g.all_readable(),
{
    let g2 = g.without_include(m, k);
    let names = g.includes[m]->0;
    assert(g2.includes[m] == Some(names.remove(k)));
    let range = set_int_range(0, g.node_count());
    assert(g2.includes.len() == g.includes.len());
    assert forall|a: GraphModel, b: GraphModel, s: Set<int>|
        (a == g && b == g2 || a == g2 && b == g) && #[trigger] a.closed(s) implies #[trigger] b.closed(
        s.intersect(range),
    ) by {
        let t = s.intersect(range);
        assert forall|n: int, kk: int|
            t.contains(n) && b.readable(n) && 0 <= kk < b.name_count(n)
                implies #[trigger] b.targets_in(t, b.name_at(n, kk)) by {
            let name = b.name_at(n, kk);
            if n == m {
                if b == g2 {
                    if kk < k {
                        assert(g2.name_at(n, kk) == g.name_at(n, kk));
                        assert(g.targets_in(s, g.name_at(n, kk)));
                    } else {
                        assert(g2.name_at(n, kk) == g.name_at(n, kk + 1));
                        assert(g.targets_in(s, g.name_at(n, kk + 1)));
                    }
                } else {
                    if kk < k {
                        assert(g2.name_at(n, kk) == g.name_at(n, kk));
                        assert(g2.targets_in(s, g2.name_at(n, kk)));
                    } else if kk > k {
                        assert(g2.name_at(n, kk - 1) == g.name_at(n, kk));
                        assert(g2.targets_in(s, g2.name_at(n, kk - 1)));
                    }
                }
            } else {
                assert(g2.includes[n] == g.includes[n]);
                assert(a.name_at(n, kk) == name);
                assert(a.targets_in(s, a.name_at(n, kk)));
            }
            if b.header_hit(name) is Some {
                let h = choose|c: int| is_first_named(b.headers, name, c);
                assert(is_first_named(b.headers, name, h));
            }
            if b.source_hit(name) is Some {
                let c = choose|c: int| is_first_named(b.sources, paired_source_name(name), c);
                assert(is_first_named(b.sources, paired_source_name(name), c));
            }
        }
    }
    assert forall|n: int| g2.reached().contains(n) <==> g.reached().contains(n) by {
        if g2.reached().contains(n) {
            assert forall|s: Set<int>| #[trigger] g.closed(s) && s.contains(g.entry_node()) implies s.contains(n) by {
                assert(g2.closed(s.intersect(range)));
                assert(s.intersect(range).contains(g2.entry_node()));
            }
        }
        if g.reached().contains(n) {
            assert forall|s: Set<int>| #[trigger] g2.closed(s) && s.contains(g2.entry_node()) implies s.contains(n) by {
                assert(g.closed(s.intersect(range)));
                assert(s.intersect(range).contains(g.entry_node()));
            }
        }
    }
    assert(g2.reached() =~= g.reached());
    assert(g2.needed_sources() =~= g.needed_sources());
    assert(g2.include_dirs() =~= g.include_dirs());
    let full = Set::<int>::full();
    assert(g.closed(full));
    assert(g2.closed(full.intersect(range)));
    assert forall|n: int| g.reached().contains(n) implies (g2.readable(n) == g.readable(n)) by {
        assert(g2.reached().contains(n));
        assert(full.intersect(range).contains(g2.entry_node()));
        assert(full.intersect(range).contains(n));
        if n != m {
            assert(g2.includes[n] == g.includes[n]);
        }
    }
}

} // verus!
