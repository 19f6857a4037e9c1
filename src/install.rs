//! The build driver: the order in which products are installed, the
//! environment each build composes, and the build tool's command lines.
//! Database queries, builds and declarations are the caller's part; the
//! installer says which comes next.

use vstd::prelude::*;
use vstd::string::*;
use crate::graph::{DepGraph, GraphError, GraphView, has_name, index_of, names_at, post_order};
use crate::identity::{identity_of, make_product_id};
use crate::source::names_of;

verus! {

/// The product that provides the Python environment.
pub open spec fn python_env() -> Seq<char> {
    "scipipe_conda"@
}

/// The products that bootstrap the Python environment themselves.
pub open spec fn is_bootstrap(p: Seq<char>) -> bool {
    p == "miniconda_lsst"@ || p == python_env()
}

/// The products whose tables compose the environment of `product`'s build,
/// given its post-order walk: the walk, preceded by the Python environment
/// when the walk lacks it and `product` is not a bootstrap product.
pub open spec fn env_order_spec(product: Seq<char>, walk: Seq<Seq<char>>) -> Seq<Seq<char>> {
    if !is_bootstrap(product) && !walk.contains(python_env()) {
        seq![python_env()] + walk
    } else {
        walk
    }
}

/// Whether `names` holds `name`.
pub fn contains_name(names: &Vec<String>, name: &String) -> (r: bool)
    ensures
        r == names_of(names@).contains(name@),
{
    let n = names.len();
    let mut i: usize = 0;
    while i < n
        invariant
            n == names@.len(),
            i <= n,
            forall|j: int| 0 <= j < i ==> names@[j]@ != name@,
        decreases n - i,
    {
        if names[i] == *name {
            assert(names_of(names@)[i as int] == name@);
            return true;
        }
        i = i + 1;
    }
    assert forall|j: int| 0 <= j < names_of(names@).len() implies names_of(names@)[j] != name@ by {
        assert(names_of(names@)[j] == names@[j]@);
    };
    false
}

/// The environment order for building `product`, given its post-order walk.
pub fn env_order(product: &str, walk: Vec<String>) -> (r: Vec<String>)
    ensures
        names_of(r@) == env_order_spec(product@, names_of(walk@)),
{
    let p = String::from_str(product);
    let env = String::from_str("scipipe_conda");
    let base = String::from_str("miniconda_lsst");
    if p == base || p == env || contains_name(&walk, &env) {
        return walk;
    }
    let mut r: Vec<String> = Vec::new();
    r.push(env);
    let n = walk.len();
    let mut i: usize = 0;
    while i < n
        invariant
            n == walk@.len(),
            i <= n,
            names_of(r@) == seq![python_env()] + names_of(walk@.subrange(0, i as int)),
        decreases n - i,
    {
        let ghost old_r = r@;
        r.push(walk[i].clone());
        assert(names_of(r@) =~= names_of(old_r).push(walk@[i as int]@));
        assert(walk@.subrange(0, i + 1) =~= walk@.subrange(0, i as int).push(walk@[i as int]));
        assert(names_of(r@) =~= seq![python_env()] + names_of(walk@.subrange(0, i + 1)));
        i = i + 1;
    }
    assert(walk@.subrange(0, n as int) =~= walk@);
    r
}

/// The build tool's verbs, in the order they run.
pub open spec fn verbs_spec() -> Seq<Seq<char>> {
    seq!["fetch"@, "prep"@, "config"@, "build"@, "install"@]
}

/// The build tool's verbs, in the order they run.
pub fn build_verbs() -> (r: Vec<String>)
    ensures
        names_of(r@) == verbs_spec(),
{
    let mut r: Vec<String> = Vec::new();
    r.push(String::from_str("fetch"));
    r.push(String::from_str("prep"));
    r.push(String::from_str("config"));
    r.push(String::from_str("build"));
    r.push(String::from_str("install"));
    assert(names_of(r@) =~= verbs_spec());
    r
}

/// The arguments of one build tool invocation.
pub open spec fn build_args_spec(
    product: Seq<char>,
    version: Seq<char>,
    flavor: Seq<char>,
    prefix: Seq<char>,
    verb: Seq<char>,
) -> Seq<Seq<char>> {
    seq![
        "PRODUCT="@ + product,
        "VERSION="@ + version,
        "FLAVOR="@ + flavor,
        "PREFIX="@ + prefix,
        verb,
    ]
}

/// The arguments of one build tool invocation: the product, version, flavor
/// and install prefix as `KEY=value` pairs, then the verb.
pub fn build_args(product: &str, version: &str, flavor: &str, prefix: &str, verb: &str) -> (r: Vec<
    String,
>)
    ensures
        names_of(r@) == build_args_spec(product@, version@, flavor@, prefix@, verb@),
{
    let mut r: Vec<String> = Vec::new();
    r.push(String::from_str("PRODUCT=").concat(product));
    r.push(String::from_str("VERSION=").concat(version));
    r.push(String::from_str("FLAVOR=").concat(flavor));
    r.push(String::from_str("PREFIX=").concat(prefix));
    r.push(String::from_str(verb));
    assert(names_of(r@) =~= build_args_spec(product@, version@, flavor@, prefix@, verb@));
    r
}

/// The database path under which a product's own, not yet declared, table is set up.
pub fn local_db_path(table_path: &str) -> (r: String)
    ensures
        r@ == "LOCAL:"@ + table_path@,
{
    String::from_str("LOCAL:").concat(table_path)
}

/// Where the table of one product of an environment order comes from.
pub enum EnvTable {
    /// The product being built: its own table, read from its working copy
    /// and set up under the database path `db_path`.
    Local { db_path: String },
    /// A dependency: the table the database declared for `product` under `id`.
    Declared { product: String, id: String },
}

/// Where the table of `node` comes from when composing the environment of
/// `product`: the product's own table is read locally from
/// `local_table_path`, every other one from the database.
pub fn env_table(product: &str, node: &str, node_id: &str, local_table_path: &str) -> (r: EnvTable)
    ensures
        node@ == product@ ==> (r matches EnvTable::Local { db_path } && db_path@ == "LOCAL:"@
            + local_table_path@),
        node@ != product@ ==> (r matches EnvTable::Declared { product: p, id } && p@ == node@ && id@
            == node_id@),
{
    if String::from_str(node) == String::from_str(product) {
        EnvTable::Local { db_path: local_db_path(local_table_path) }
    } else {
        EnvTable::Declared { product: String::from_str(node), id: String::from_str(node_id) }
    }
}

/// The path of a product's table relative to its working copy or install prefix.
pub fn table_rel_path(product: &str) -> (r: String)
    ensures
        r@ == "ups/"@ + product@ + ".table"@,
{
    String::from_str("ups/").concat(product).concat(".table")
}

/// Where the installer stands with a product.
#[derive(PartialEq, Eq, Structural, Clone, Copy, Debug)]
pub enum Phase {
    /// Waiting to hear whether the database stores the product's identity.
    AwaitQuery,
    /// Installing the product's dependencies.
    Deps,
    /// Waiting for the source build and declaration to finish.
    AwaitBuild,
    /// Waiting for the stored build to be declared.
    AwaitReuse,
}

/// What the caller does next.
pub enum InstallAction {
    /// Ask the database whether it stores `product` under identity `id`, and
    /// hand the answer to `answer`.
    Query { product: String, id: String },
    /// Declare the stored build of `product` under `id`, then call `finished`.
    Reuse { product: String, id: String },
    /// Source-build `product`: compose the environment from the tables of
    /// `env_order` in that order, run the build tool's verbs, declare the
    /// result under `id`, then call `finished`.
    Build { product: String, id: String, env_order: Vec<String> },
    /// The requested product is installed.
    Done,
}

struct Frame {
    product: String,
    id: String,
    order: Vec<String>,
    next: usize,
    phase: Phase,
}

/// The state of an install run.
pub struct Installer {
    graph: DepGraph,
    heads: Vec<String>,
    completed: Vec<String>,
    stack: Vec<Frame>,
}

/// Whether `d` is settled for a frame of `p`: `p` itself, or installed.
pub open spec fn settled(completed: Seq<Seq<char>>, p: Seq<char>, d: Seq<char>) -> bool {
    d == p || completed.contains(d)
}

/// The first position from `k` on whose entry is not settled for `p`.
pub open spec fn unsettled_from(order: Seq<Seq<char>>, done: Seq<Seq<char>>, p: Seq<char>, k: int) -> Option<
    int,
>
    decreases order.len() - k,
{
    if k < 0 || k >= order.len() {
        None
    } else if !settled(done, p, order[k]) {
        Some(k)
    } else {
        unsettled_from(order, done, p, k + 1)
    }
}

/// Skipping settled entries does not change the first unsettled one.
pub proof fn lemma_unsettled_skip(order: Seq<Seq<char>>, done: Seq<Seq<char>>, p: Seq<char>, i: int, k: int)
    requires
        0 <= i <= k <= order.len(),
        forall|j: int| i <= j < k ==> settled(done, p, #[trigger] order[j]),
    ensures
        unsettled_from(order, done, p, i) == unsettled_from(order, done, p, k),
    decreases k - i,
{
    if i < k {
        lemma_unsettled_skip(order, done, p, i + 1, k);
    }
}

impl Installer {
    /// The dependency graph.
    pub closed spec fn graph_view(&self) -> GraphView {
        self.graph@
    }

    /// The head SHA of each node's working copy, by node index.
    pub closed spec fn heads_view(&self) -> Seq<Seq<char>> {
        names_of(self.heads@)
    }

    /// The products installed so far in this run, in order.
    pub closed spec fn completed_view(&self) -> Seq<Seq<char>> {
        names_of(self.completed@)
    }

    /// Where the installer stands with the product it works on, if any.
    pub closed spec fn phase(&self) -> Option<Phase> {
        if self.stack@.len() == 0 {
            None
        } else {
            Some(self.stack@.last().phase)
        }
    }

    /// The product the installer works on.
    pub closed spec fn current(&self) -> Seq<char> {
        self.stack@.last().product@
    }

    /// The number of products the installer is working on, nested.
    pub closed spec fn depth(&self) -> nat {
        self.stack@.len()
    }

    /// The product that needs the current one.
    pub closed spec fn parent(&self) -> Seq<char> {
        self.stack@[self.stack@.len() - 2].product@
    }

    /// What comes after `p`'s dependency walk resumes: a build of `p` once
    /// every entry of its environment order is `p` or installed; else a
    /// query for the first entry that is neither, or an unknown node error
    /// when that entry is not in the graph.
    pub open spec fn resumes(&self, p: Seq<char>, r: Result<InstallAction, GraphError>) -> bool {
        let order = self.env_of(p);
        match unsettled_from(order, self.completed_view(), p, 0) {
            None => r matches Ok(InstallAction::Build { product, .. }) && product@ == p,
            Some(j) => if has_name(self.graph_view(), order[j]) {
                r matches Ok(InstallAction::Query { product, .. }) && product@ == order[j]
            } else {
                r matches Err(GraphError::UnknownNode(n)) && n@ == order[j]
            },
        }
    }

    /// The identity of the product `p`.
    pub open spec fn id_of(&self, p: Seq<char>) -> Seq<char> {
        identity_of(self.graph_view(), self.heads_view(), index_of(self.graph_view(), p))
    }

    /// The environment order of the product `p`.
    pub open spec fn env_of(&self, p: Seq<char>) -> Seq<Seq<char>> {
        env_order_spec(
            p,
            names_at(self.graph_view(), post_order(self.graph_view(), index_of(self.graph_view(), p))),
        )
    }

    /// What an action promises, in the state that follows it.
    pub open spec fn action_ok(&self, a: InstallAction) -> bool {
        match a {
            InstallAction::Query { product, id } => {
                &&& self.phase() == Some(Phase::AwaitQuery)
                &&& self.current() == product@
                &&& has_name(self.graph_view(), product@)
                &&& id@ == self.id_of(product@)
                &&& !self.completed_view().contains(product@)
            },
            InstallAction::Reuse { product, id } => {
                &&& self.phase() == Some(Phase::AwaitReuse)
                &&& self.current() == product@
                &&& id@ == self.id_of(product@)
            },
            InstallAction::Build { product, id, env_order } => {
                &&& self.phase() == Some(Phase::AwaitBuild)
                &&& self.current() == product@
                &&& id@ == self.id_of(product@)
                &&& names_of(env_order@) == self.env_of(product@)
                &&& forall|j: int|
                    0 <= j < env_order@.len() ==> settled(
                        self.completed_view(),
                        product@,
                        #[trigger] env_order@[j]@,
                    )
            },
            InstallAction::Done => self.phase() is None,
        }
    }

    /// A frame's own facts: its product is a node with its identity, and a
    /// frame installing dependencies holds the product's environment order.
    closed spec fn frame_ok(&self, f: Frame) -> bool {
        &&& has_name(self.graph@, f.product@)
        &&& f.id@ == self.id_of(f.product@)
        &&& f.phase == Phase::Deps ==> names_of(f.order@) == self.env_of(f.product@) && f.next
            <= f.order@.len()
    }

    /// A frame below the top: it waits on the dependency the frame above
    /// installs, and every earlier dependency is settled.
    closed spec fn below_ok(f: Frame, above: Frame, done: Seq<Seq<char>>) -> bool {
        &&& f.phase == Phase::Deps
        &&& f.next >= 1
        &&& f.order@[f.next - 1]@ == above.product@
        &&& forall|j: int| 0 <= j < f.next - 1 ==> settled(done, f.product@, #[trigger] f.order@[j]@)
    }

    /// The top frame: every dependency before `next` is settled.
    closed spec fn top_ok(f: Frame, done: Seq<Seq<char>>) -> bool {
        forall|j: int| 0 <= j < f.next ==> settled(done, f.product@, #[trigger] f.order@[j]@)
    }

    /// The installer's internal invariant.
    pub closed spec fn wf(&self) -> bool {
        let st = self.stack@;
        let done = self.completed_view();
        &&& self.graph.wf()
        &&& self.heads@.len() == self.graph@.names.len()
        &&& forall|i: int| 0 <= i < st.len() ==> self.frame_ok(#[trigger] st[i])
        &&& forall|i: int| 0 <= i < st.len() - 1 ==> Self::below_ok(#[trigger] st[i], st[i + 1], done)
        &&& st.len() > 0 ==> Self::top_ok(st.last(), done)
    }

    /// Starts installing over a resolved graph and its head SHAs; `completed`
    /// lists the products this run installed already.
    pub fn new(graph: DepGraph, heads: Vec<String>, completed: Vec<String>) -> (r: Installer)
        requires
            graph.wf(),
            heads@.len() == graph@.names.len(),
        ensures
            r.wf(),
            r.graph_view() == graph@,
            r.heads_view() == names_of(heads@),
            r.completed_view() == names_of(completed@),
            r.phase() is None,
    {
        Installer { graph, heads, completed, stack: Vec::new() }
    }

    /// The dependency graph.
    pub fn graph(&self) -> (r: &DepGraph)
        requires
            self.wf(),
        ensures
            r@ == self.graph_view(),
            r.wf(),
    {
        &self.graph
    }

    /// The head SHA of each node's working copy, by node index.
    pub fn heads(&self) -> (r: &Vec<String>)
        requires
            self.wf(),
        ensures
            names_of(r@) == self.heads_view(),
            r@.len() == self.graph_view().names.len(),
    {
        &self.heads
    }

    /// The products installed so far in this run, in order.
    pub fn completed(&self) -> (r: &Vec<String>)
        ensures
            names_of(r@) == self.completed_view(),
    {
        &self.completed
    }

    /// Where the installer stands with the product it works on, if any.
    pub fn state(&self) -> (r: Option<Phase>)
        ensures
            r == self.phase(),
    {
        if self.stack.len() == 0 {
            None
        } else {
            Some(self.stack[self.stack.len() - 1].phase)
        }
    }

    /// Whether `name` was installed in this run.
    pub fn is_completed(&self, name: &String) -> (r: bool)
        ensures
            r == self.completed_view().contains(name@),
    {
        contains_name(&self.completed, name)
    }

    /// Starts installing `product`: nothing to do if this run installed it
    /// already, else first ask the database for its identity.
    pub fn install(&mut self, product: &str) -> (r: Result<InstallAction, GraphError>)
        requires
            old(self).wf(),
            old(self).phase() is None,
        ensures
            final(self).wf(),
            final(self).graph_view() == old(self).graph_view(),
            final(self).heads_view() == old(self).heads_view(),
            final(self).completed_view() == old(self).completed_view(),
            old(self).completed_view().contains(product@) ==> r matches Ok(InstallAction::Done),
            !old(self).completed_view().contains(product@) && has_name(
                old(self).graph_view(),
                product@,
            ) ==> (r matches Ok(InstallAction::Query { product: q, .. }) && q@ == product@),
            !old(self).completed_view().contains(product@) && !has_name(
                old(self).graph_view(),
                product@,
            ) ==> (r matches Err(GraphError::UnknownNode(n)) && n@ == product@),
            r matches Ok(a) ==> final(self).action_ok(a),
            r is Err ==> final(self).phase() is None,
    {
        let p = String::from_str(product);
        if self.is_completed(&p) {
            return Ok(InstallAction::Done);
        }
        let id = make_product_id(&self.graph, &self.heads, product)?;
        let f = Frame {
            product: p.clone(),
            id: id.clone(),
            order: Vec::new(),
            next: 0,
            phase: Phase::AwaitQuery,
        };
        self.stack.push(f);
        Ok(InstallAction::Query { product: p, id })
    }

    /// Takes the database's answer for the product in question: a stored
    /// build is reused; otherwise its dependencies are installed first, in
    /// its environment order.
    pub fn answer(&mut self, stored: bool) -> (r: Result<InstallAction, GraphError>)
        requires
            old(self).wf(),
            old(self).phase() == Some(Phase::AwaitQuery),
        ensures
            final(self).wf(),
            final(self).graph_view() == old(self).graph_view(),
            final(self).heads_view() == old(self).heads_view(),
            final(self).completed_view() == old(self).completed_view(),
            stored ==> (r matches Ok(InstallAction::Reuse { product, .. }) && product@ == old(
                self,
            ).current()),
            !stored ==> final(self).resumes(old(self).current(), r),
            r matches Ok(a) ==> final(self).action_ok(a),
    {
        let ghost st = self.stack@;
        let f = self.stack.pop().unwrap();
        let Frame { product, id, order: _, next: _, phase: _ } = f;
        if stored {
            let a = InstallAction::Reuse { product: product.clone(), id: id.clone() };
            self.stack.push(Frame { product, id, order: Vec::new(), next: 0, phase: Phase::AwaitReuse });
            assert(self.stack@.drop_last() == st.drop_last());
            return Ok(a);
        }
        proof {
            crate::graph::lemma_index_of(self.graph@, index_of(self.graph@, product@));
        }
        let walk = match self.graph.dfs_post_order_names(product.as_str()) {
            Ok(w) => w,
            Err(e) => {
                assert(false);
                return Err(e);
            },
        };
        let order = env_order(product.as_str(), walk);
        self.stack.push(Frame { product, id, order, next: 0, phase: Phase::Deps });
        assert(self.stack@.drop_last() == st.drop_last());
        self.advance()
    }

    /// Installs the current product's remaining dependencies in order, until
    /// one must be asked about or all are installed and the product is built.
    fn advance(&mut self) -> (r: Result<InstallAction, GraphError>)
        requires
            old(self).wf(),
            old(self).phase() == Some(Phase::Deps),
        ensures
            final(self).wf(),
            final(self).graph_view() == old(self).graph_view(),
            final(self).heads_view() == old(self).heads_view(),
            final(self).completed_view() == old(self).completed_view(),
            final(self).resumes(old(self).current(), r),
            r matches Ok(a) ==> final(self).action_ok(a),
    {
        let ghost p = old(self).current();
        loop
            invariant
                self.wf(),
                self.phase() == Some(Phase::Deps),
                self.current() == p,
                p == old(self).current(),
                self.graph@ == old(self).graph@,
                self.heads@ == old(self).heads@,
                self.completed@ == old(self).completed@,
            decreases self.stack@.last().order@.len() - self.stack@.last().next,
        {
            let ghost st = self.stack@;
            let t = self.stack.len() - 1;
            let next = self.stack[t].next;
            let ghost eo = self.env_of(p);
            let ghost done = self.completed_view();
            proof {
                assert(self.frame_ok(st[t as int]));
                assert(Self::top_ok(st[t as int], done));
                assert(names_of(st[t as int].order@) == eo);
                assert forall|j: int| 0 <= j < next implies settled(done, p, #[trigger] eo[j]) by {
                    assert(eo[j] == st[t as int].order@[j]@);
                };
                lemma_unsettled_skip(eo, done, p, 0, next as int);
            }
            if next >= self.stack[t].order.len() {
                let f = self.stack.pop().unwrap();
                let Frame { product, id, order, next: _, phase: _ } = f;
                let a = InstallAction::Build { product: product.clone(), id: id.clone(), env_order: order };
                self.stack.push(Frame { product, id, order: Vec::new(), next: 0, phase: Phase::AwaitBuild });
                assert(self.stack@.drop_last() == st.drop_last());
                assert(unsettled_from(eo, done, p, next as int) is None);
                assert(self.env_of(p) == eo);
                assert(self.completed_view() == done);
                return Ok(a);
            }
            let d = self.stack[t].order[next].clone();
            assert(d@ == eo[next as int]);
            if d == self.stack[t].product || self.is_completed(&d) {
                let mut f = self.stack.pop().unwrap();
                f.next = next + 1;
                self.stack.push(f);
                assert(self.stack@.drop_last() == st.drop_last());
                proof {
                    lemma_unsettled_skip(eo, done, p, next as int, next + 1);
                }
            } else {
                assert(!settled(done, p, d@));
                assert(unsettled_from(eo, done, p, next as int) == Some(next as int));
                assert(self.env_of(p) == eo);
                let id = match make_product_id(&self.graph, &self.heads, d.as_str()) {
                    Ok(id) => id,
                    Err(e) => {
                        return Err(e);
                    },
                };
                let mut f = self.stack.pop().unwrap();
                f.next = next + 1;
                self.stack.push(f);
                let c = Frame { product: d.clone(), id: id.clone(), order: Vec::new(), next: 0, phase: Phase::AwaitQuery };
                self.stack.push(c);
                return Ok(InstallAction::Query { product: d, id });
            }
        }
    }

    /// Records that the current product is declared, and moves on to what
    /// the product that needed it still needs.
    pub fn finished(&mut self) -> (r: Result<InstallAction, GraphError>)
        requires
            old(self).wf(),
            old(self).phase() == Some(Phase::AwaitBuild) || old(self).phase() == Some(
                Phase::AwaitReuse,
            ),
        ensures
            final(self).wf(),
            final(self).graph_view() == old(self).graph_view(),
            final(self).heads_view() == old(self).heads_view(),
            final(self).completed_view() == old(self).completed_view().push(old(self).current()),
            old(self).depth() == 1 ==> r matches Ok(InstallAction::Done),
            old(self).depth() > 1 ==> final(self).resumes(old(self).parent(), r),
            r matches Ok(a) ==> final(self).action_ok(a),
    {
        let ghost st = self.stack@;
        let f = self.stack.pop().unwrap();
        let ghost old_done = self.completed@;
        self.completed.push(f.product);
        assert(names_of(self.completed@) =~= names_of(old_done).push(st.last().product@));
        if self.stack.len() == 0 {
            return Ok(InstallAction::Done);
        }
        let ghost done = names_of(old_done);
        let ghost done2 = self.completed_view();
        let ghost c = st.last().product@;
        proof {
            assert(self.stack@ == st.drop_last());
            assert(done2.last() == c);
            assert forall|p: Seq<char>, d: Seq<char>| settled(done, p, d) implies settled(done2, p, d) by {
                if d != p {
                    let k = choose|k: int| 0 <= k < done.len() && done[k] == d;
                    assert(done2[k] == d);
                }
            };
            assert forall|i: int| 0 <= i < self.stack@.len() implies self.frame_ok(#[trigger] self.stack@[i]) by {
                assert(self.stack@[i] == st[i]);
            };
            assert forall|i: int| 0 <= i < self.stack@.len() - 1 implies Self::below_ok(
                #[trigger] self.stack@[i],
                self.stack@[i + 1],
                done2,
            ) by {
                assert(Self::below_ok(st[i], st[i + 1], done));
                let f = st[i];
                assert forall|j: int| 0 <= j < f.next - 1 implies settled(done2, f.product@, #[trigger] f.order@[j]@) by {
                    assert(settled(done, f.product@, f.order@[j]@));
                };
            };
            let top = st[st.len() - 2];
            assert(Self::below_ok(top, st.last(), done));
            assert(self.stack@.last() == top);
            assert forall|j: int| 0 <= j < top.next implies settled(done2, top.product@, #[trigger] top.order@[j]@) by {
                if j < top.next - 1 {
                    assert(settled(done, top.product@, top.order@[j]@));
                } else {
                    assert(top.order@[j]@ == c);
                    assert(done2[done2.len() - 1] == c);
                }
            };
        }
        self.advance()
    }
}

} // verus!
