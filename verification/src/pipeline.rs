//! A pipeline: a set of uniquely named stages whose dependencies form a DAG.

use petgraph::graph::Graph;
use petgraph::Directed;
use vstd::prelude::*;
use vstd::string::*;

use crate::error::PipelineError;
use crate::graph::{
    add_graph_edge, add_graph_node, empty_graph, graph_edges, graph_node_count,
    is_topological_order, topological_sort,
};
use crate::stage::Stage;
use crate::text::views;

verus! {

/// No two stages share a name.
pub open spec fn distinct_names(stages: Seq<Stage>) -> bool {
    forall|i: int, j: int|
        0 <= i < stages.len() && 0 <= j < stages.len() && i != j ==> stages[i].name@
            != stages[j].name@
}

/// Some stage is named `name`.
pub open spec fn has_stage(stages: Seq<Stage>, name: Seq<char>) -> bool {
    exists|i: int| 0 <= i < stages.len() && #[trigger] stages[i].name@ == name
}

/// The position of the stage named `name` (meaningful when there is one).
pub open spec fn stage_position(stages: Seq<Stage>, name: Seq<char>) -> int {
    choose|i: int| 0 <= i < stages.len() && #[trigger] stages[i].name@ == name
}

/// The stage named `name`, if there is one.
pub open spec fn find_stage(stages: Seq<Stage>, name: Seq<char>) -> Option<Stage> {
    if has_stage(stages, name) {
        Some(stages[stage_position(stages, name)])
    } else {
        None
    }
}

/// The stages after adding `stage`: it replaces the stage of the same name,
/// or joins the end when there is none.
pub open spec fn with_stage(stages: Seq<Stage>, stage: Stage) -> Seq<Stage> {
    if has_stage(stages, stage.name@) {
        stages.update(stage_position(stages, stage.name@), stage)
    } else {
        stages.push(stage)
    }
}

/// The names that a stage depends on.
pub open spec fn dependency_names(stage: Stage) -> Seq<Seq<char>> {
    views(stage.dependencies@)
}

/// The stage named `name` lists `dependency` among its dependencies.
pub open spec fn depends_on(stages: Seq<Stage>, name: Seq<char>, dependency: Seq<char>) -> bool {
    exists|k: int|
        0 <= k < stages.len() && #[trigger] stages[k].name@ == name && dependency_names(
            stages[k],
        ).contains(dependency)
}

/// Every dependency of every stage names a stage of the pipeline.
pub open spec fn dependencies_known(stages: Seq<Stage>) -> bool {
    forall|i: int, j: int|
        0 <= i < stages.len() && 0 <= j < stages[i].dependencies@.len() ==> has_stage(
            stages,
            #[trigger] stages[i].dependencies@[j]@,
        )
}

/// The `j`-th dependency of the `i`-th stage names no stage, and it is the
/// first such dependency when stages are read in order and each stage's
/// dependencies in order.
pub open spec fn first_missing_dependency(stages: Seq<Stage>, i: int, j: int) -> bool {
    &&& 0 <= i < stages.len()
    &&& 0 <= j < stages[i].dependencies@.len()
    &&& !has_stage(stages, stages[i].dependencies@[j]@)
    &&& forall|i2: int, j2: int|
        0 <= i2 < stages.len() && 0 <= j2 < stages[i2].dependencies@.len() && (i2 < i || (i2 == i
            && j2 < j)) ==> has_stage(stages, #[trigger] stages[i2].dependencies@[j2]@)
}

/// `order` names every stage exactly once, and each stage comes after every
/// stage that it depends on.
pub open spec fn is_execution_order(stages: Seq<Stage>, order: Seq<Seq<char>>) -> bool {
    &&& order.len() == stages.len()
    &&& order.no_duplicates()
    &&& forall|i: int| 0 <= i < order.len() ==> has_stage(stages, #[trigger] order[i])
    &&& forall|i: int, j: int|
        0 <= i < order.len() && 0 <= j < order.len() && depends_on(stages, order[j], order[i])
            ==> i < j
}

/// The stages can be run in some order that respects every dependency.
pub open spec fn is_acyclic(stages: Seq<Stage>) -> bool {
    exists|order: Seq<Seq<char>>| is_execution_order(stages, order)
}

/// The stages without dependencies, in pipeline order.
pub open spec fn root_stages_of(stages: Seq<Stage>) -> Seq<Stage> {
    stages.filter(|s: Stage| s.dependencies@.len() == 0)
}

/// What `Pipeline::execution_order` gives for `stages`: an execution order
/// when every dependency names a stage and the dependencies admit one;
/// `DependencyNotFound` with the first dependency that names no stage; else
/// `CycleDetected`.
pub open spec fn is_order_outcome(stages: Seq<Stage>, r: Result<Vec<String>, PipelineError>) -> bool {
    match r {
        Ok(order) => dependencies_known(stages) && is_execution_order(stages, views(order@)),
        Err(PipelineError::DependencyNotFound(d)) => exists|i: int, j: int|
            first_missing_dependency(stages, i, j) && d@ == stages[i].dependencies@[j]@,
        Err(PipelineError::CycleDetected) => dependencies_known(stages) && !is_acyclic(stages),
        Err(_) => false,
    }
}

/// What `Pipeline::validate` gives for `stages`: success exactly when every
/// dependency names a stage and the dependencies admit an execution order,
/// with the errors of `is_order_outcome` otherwise.
pub open spec fn is_validation_outcome(stages: Seq<Stage>, r: Result<(), PipelineError>) -> bool {
    match r {
        Ok(()) => dependencies_known(stages) && is_acyclic(stages),
        Err(PipelineError::DependencyNotFound(d)) => exists|i: int, j: int|
            first_missing_dependency(stages, i, j) && d@ == stages[i].dependencies@[j]@,
        Err(PipelineError::CycleDetected) => dependencies_known(stages) && !is_acyclic(stages),
        Err(_) => false,
    }
}

/// A pipeline defined as a DAG of stages.
#[derive(Debug)]
pub struct Pipeline {
    stages: Vec<Stage>,
}

impl View for Pipeline {
    type V = Seq<Stage>;

    closed spec fn view(&self) -> Seq<Stage> {
        self.stages@
    }
}

proof fn lemma_position(stages: Seq<Stage>, i: int)
    requires
        distinct_names(stages),
        0 <= i < stages.len(),
    ensures
        has_stage(stages, stages[i].name@),
        stage_position(stages, stages[i].name@) == i,
        find_stage(stages, stages[i].name@) == Some(stages[i]),
{
    let name = stages[i].name@;
    assert(has_stage(stages, name));
}

/// The stage positions that `order` names become a topological order of the
/// dependency graph whose edges are exactly the (dependency, dependent) pairs.
proof fn lemma_order_gives_topological_order(
    stages: Seq<Stage>,
    edges: Seq<(usize, usize)>,
    order: Seq<Seq<char>>,
)
    requires
        distinct_names(stages),
        is_execution_order(stages, order),
        stages.len() <= usize::MAX,
        forall|u: usize, v: usize|
            #[trigger] edges.contains((u, v)) ==> u < stages.len() && v < stages.len()
                && dependency_names(stages[v as int]).contains(stages[u as int].name@),
    ensures
        is_topological_order(
            stages.len(),
            edges,
            order.map_values(|name: Seq<char>| stage_position(stages, name) as usize),
        ),
{
    let positions = order.map_values(|name: Seq<char>| stage_position(stages, name) as usize);
    assert forall|k: int| 0 <= k < positions.len() implies #[trigger] positions[k] < stages.len()
        && stages[positions[k] as int].name@ == order[k] by {
        assert(has_stage(stages, order[k]));
    }
    assert forall|a: int, b: int|
        0 <= a < positions.len() && 0 <= b < positions.len() && a != b implies positions[a]
        != positions[b] by {
        assert(has_stage(stages, order[a]));
        assert(has_stage(stages, order[b]));
    }
    assert forall|a: int, b: int|
        0 <= a < positions.len() && 0 <= b < positions.len() && edges.contains(
            (positions[a], positions[b]),
        ) implies a < b by {
        assert(has_stage(stages, order[a]));
        assert(has_stage(stages, order[b]));
        let k = positions[b] as int;
        assert(stages[k].name@ == order[b]);
        assert(depends_on(stages, order[b], order[a]));
    }
}

/// A topological order of the dependency graph names the stages in an
/// execution order.
proof fn lemma_topological_order_gives_order(
    stages: Seq<Stage>,
    edges: Seq<(usize, usize)>,
    positions: Seq<usize>,
    order: Seq<Seq<char>>,
)
    requires
        distinct_names(stages),
        is_topological_order(stages.len(), edges, positions),
        order.len() == positions.len(),
        forall|k: int| 0 <= k < order.len() ==> #[trigger] order[k] == stages[positions[k] as int].name@,
        forall|u: usize, v: usize|
            u < stages.len() && v < stages.len() && dependency_names(stages[v as int]).contains(
                stages[u as int].name@,
            ) ==> #[trigger] edges.contains((u, v)),
    ensures
        is_execution_order(stages, order),
{
    assert forall|i: int| 0 <= i < order.len() implies has_stage(stages, #[trigger] order[i]) by {
        assert(positions[i] < stages.len());
        assert(stages[positions[i] as int].name@ == order[i]);
    }
    assert forall|a: int, b: int|
        0 <= a < order.len() && 0 <= b < order.len() && a != b implies order[a] != order[b] by {
        assert(positions[a] < stages.len());
        assert(positions[b] < stages.len());
        assert(positions[a] != positions[b]);
    }
    assert forall|a: int, b: int|
        0 <= a < order.len() && 0 <= b < order.len() && depends_on(
            stages,
            order[b],
            order[a],
        ) implies a < b by {
        let k = choose|k: int|
            0 <= k < stages.len() && #[trigger] stages[k].name@ == order[b] && dependency_names(
                stages[k],
            ).contains(order[a]);
        assert(positions[a] < stages.len());
        assert(positions[b] < stages.len());
        assert(k == positions[b]);
        assert(edges.contains((positions[a], positions[b])));
    }
}

impl Pipeline {
    #[verifier::type_invariant]
    closed spec fn names_are_unique(self) -> bool {
        distinct_names(self.stages@)
    }

    /// Create an empty pipeline.
    pub fn new() -> (pipeline: Pipeline)
        ensures
            pipeline@ == Seq::<Stage>::empty(),
            distinct_names(pipeline@),
    {
        Pipeline { stages: Vec::new() }
    }

    /// The position of the stage named `name`, if there is one.
    fn position(&self, name: &String) -> (position: Option<usize>)
        ensures
            match position {
                Some(i) => i < self@.len() && has_stage(self@, name@) && stage_position(
                    self@,
                    name@,
                ) == i,
                None => !has_stage(self@, name@),
            },
    {
        proof {
            use_type_invariant(self);
        }
        let n = self.stages.len();
        let mut i: usize = 0;
        while i < n
            invariant
                n == self.stages@.len(),
                i <= n,
                distinct_names(self.stages@),
                forall|k: int| 0 <= k < i ==> #[trigger] self.stages@[k].name@ != name@,
            decreases n - i,
        {
            if self.stages[i].name == *name {
                proof {
                    lemma_position(self.stages@, i as int);
                }
                return Some(i);
            }
            i = i + 1;
        }
        None
    }

    /// The dependency graph of the pipeline: node `i` is the `i`-th stage, and
    /// an edge runs from each dependency to the stage that lists it. Fails on
    /// the first dependency that names no stage.
    fn dependency_graph(&self) -> (r: Result<Graph<(), (), Directed, usize>, PipelineError>)
        ensures
            match r {
                Ok(g) => {
                    &&& dependencies_known(self@)
                    &&& graph_node_count(g) == self@.len()
                    &&& forall|u: usize, v: usize|
                        #[trigger] graph_edges(g).contains((u, v)) <==> (u < self@.len() && v
                            < self@.len() && dependency_names(self@[v as int]).contains(
                            self@[u as int].name@,
                        ))
                },
                Err(PipelineError::DependencyNotFound(d)) => exists|i: int, j: int|
                    first_missing_dependency(self@, i, j) && d@ == self@[i].dependencies@[j]@,
                Err(_) => false,
            },
    {
        proof {
            use_type_invariant(self);
        }
        let n = self.stages.len();
        let mut g = empty_graph();
        let mut i: usize = 0;
        while i < n
            invariant
                i <= n,
                graph_node_count(g) == i,
                graph_edges(g) == Seq::<(usize, usize)>::empty(),
            decreases n - i,
        {
            add_graph_node(&mut g);
            i = i + 1;
        }
        let ghost stages = self.stages@;
        let mut v: usize = 0;
        while v < n
            invariant
                stages == self.stages@,
                n == stages.len(),
                v <= n,
                distinct_names(stages),
                graph_node_count(g) == n,
                forall|a: usize, b: usize|
                    #[trigger] graph_edges(g).contains((a, b)) <==> (a < n && b < v
                        && dependency_names(stages[b as int]).contains(stages[a as int].name@)),
                forall|i2: int, j2: int|
                    0 <= i2 < v && 0 <= j2 < stages[i2].dependencies@.len() ==> has_stage(
                        stages,
                        #[trigger] stages[i2].dependencies@[j2]@,
                    ),
            decreases n - v,
        {
            let deps = &self.stages[v].dependencies;
            let m = deps.len();
            let mut j: usize = 0;
            while j < m
                invariant
                    stages == self.stages@,
                    n == stages.len(),
                    v < n,
                    deps == stages[v as int].dependencies,
                    m == deps@.len(),
                    j <= m,
                    distinct_names(stages),
                    graph_node_count(g) == n,
                    forall|a: usize, b: usize|
                        #[trigger] graph_edges(g).contains((a, b)) <==> (a < n && ((b < v
                            && dependency_names(stages[b as int]).contains(stages[a as int].name@))
                            || (b == v && views(deps@.take(j as int)).contains(
                            stages[a as int].name@,
                        )))),
                    forall|i2: int, j2: int|
                        0 <= i2 < v && 0 <= j2 < stages[i2].dependencies@.len() ==> has_stage(
                            stages,
                            #[trigger] stages[i2].dependencies@[j2]@,
                        ),
                    forall|j2: int| 0 <= j2 < j ==> has_stage(stages, #[trigger] deps@[j2]@),
                decreases m - j,
            {
                match self.position(&deps[j]) {
                    None => {
                        proof {
                            assert(first_missing_dependency(stages, v as int, j as int));
                        }
                        return Err(PipelineError::DependencyNotFound(deps[j].clone()));
                    },
                    Some(u) => {
                        let ghost old_edges = graph_edges(g);
                        add_graph_edge(&mut g, u, v);
                        proof {
                            let name = deps@[j as int]@;
                            let new_edges = graph_edges(g);
                            let tj = views(deps@.take(j as int));
                            let tj1 = views(deps@.take(j + 1));
                            assert(stages[u as int].name@ == name);
                            assert(tj1 =~= tj.push(name));
                            assert forall|a: usize, b: usize|
                                #[trigger] new_edges.contains((a, b)) <==> (a < n && ((b < v
                                    && dependency_names(stages[b as int]).contains(
                                    stages[a as int].name@,
                                )) || (b == v && tj1.contains(stages[a as int].name@)))) by {
                                if new_edges.contains((a, b)) {
                                    let k = choose|k: int|
                                        0 <= k < new_edges.len() && new_edges[k] == (a, b);
                                    if k < old_edges.len() {
                                        assert(old_edges[k] == (a, b));
                                        assert(old_edges.contains((a, b)));
                                        if b == v {
                                            let x = choose|x: int|
                                                0 <= x < tj.len() && #[trigger] tj[x]
                                                    == stages[a as int].name@;
                                            assert(tj1[x] == tj[x]);
                                        }
                                    } else {
                                        assert(tj1[j as int] == name);
                                    }
                                }
                                if a < n && ((b < v && dependency_names(stages[b as int]).contains(
                                    stages[a as int].name@,
                                )) || (b == v && tj1.contains(stages[a as int].name@))) {
                                    if b < v {
                                        assert(old_edges.contains((a, b)));
                                        let k = choose|k: int|
                                            0 <= k < old_edges.len() && old_edges[k] == (a, b);
                                        assert(new_edges[k] == (a, b));
                                    } else {
                                        let x = choose|x: int|
                                            0 <= x < tj1.len() && #[trigger] tj1[x]
                                                == stages[a as int].name@;
                                        if x < j {
                                            assert(tj[x] == tj1[x]);
                                            assert(tj.contains(stages[a as int].name@));
                                            assert(old_edges.contains((a, b)));
                                            let k = choose|k: int|
                                                0 <= k < old_edges.len() && old_edges[k] == (a, b);
                                            assert(new_edges[k] == (a, b));
                                        } else {
                                            assert(stages[a as int].name@ == stages[u as int].name@);
                                            assert(a == u);
                                            assert(new_edges[old_edges.len() as int] == (a, b));
                                        }
                                    }
                                }
                            }
                        }
                    },
                }
                j = j + 1;
            }
            proof {
                assert(deps@.take(m as int) =~= deps@);
                assert forall|a: usize, b: usize|
                    #[trigger] graph_edges(g).contains((a, b)) <==> (a < n && b < v + 1
                        && dependency_names(stages[b as int]).contains(stages[a as int].name@)) by {
                    if b == v {
                        assert(dependency_names(stages[b as int]) == views(deps@.take(m as int)));
                    }
                }
            }
            v = v + 1;
        }
        Ok(g)
    }

    /// The execution order (a topological sort) of the stages. Fails with
    /// `DependencyNotFound` naming the first dependency that names no stage,
    /// else with `CycleDetected` when the dependencies admit no order.
    pub fn execution_order(&self) -> (r: Result<Vec<String>, PipelineError>)
        ensures
            is_order_outcome(self@, r),
    {
        proof {
            use_type_invariant(self);
        }
        let g = match self.dependency_graph() {
            Ok(g) => g,
            Err(e) => {
                return Err(e);
            },
        };
        let ghost stages = self.stages@;
        let stage_count = self.stages.len();
        assert(stages.len() == stage_count);
        match topological_sort(&g) {
            None => {
                proof {
                    if is_acyclic(stages) {
                        let order = choose|order: Seq<Seq<char>>| is_execution_order(stages, order);
                        lemma_order_gives_topological_order(stages, graph_edges(g), order);
                    }
                }
                Err(PipelineError::CycleDetected)
            },
            Some(positions) => {
                let n = positions.len();
                let mut names: Vec<String> = Vec::new();
                let mut k: usize = 0;
                while k < n
                    invariant
                        stages == self.stages@,
                        n == positions@.len(),
                        n == stages.len(),
                        k <= n,
                        is_topological_order(stages.len(), graph_edges(g), positions@),
                        names@.len() == k,
                        forall|i: int| 0 <= i < k ==> #[trigger] views(names@)[i] == stages[positions@[i] as int].name@,
                    decreases n - k,
                {
                    assert(positions@[k as int] < stages.len());
                    let ghost old_names = names@;
                    names.push(self.stages[positions[k]].name.clone());
                    assert(views(names@) =~= views(old_names).push(
                        stages[positions@[k as int] as int].name@,
                    ));
                    k = k + 1;
                }
                proof {
                    lemma_topological_order_gives_order(stages, graph_edges(g), positions@, views(names@));
                }
                Ok(names)
            },
        }
    }

    /// Validate the pipeline: every dependency names a stage and the
    /// dependencies admit an execution order.
    pub fn validate(&self) -> (r: Result<(), PipelineError>)
        ensures
            is_validation_outcome(self@, r),
    {
        match self.execution_order() {
            Ok(_) => Ok(()),
            Err(e) => Err(e),
        }
    }

    /// Add a stage to the pipeline, replacing any stage of the same name.
    pub fn add_stage(&mut self, stage: Stage)
        ensures
            distinct_names(old(self)@),
            final(self)@ == with_stage(old(self)@, stage),
            distinct_names(final(self)@),
    {
        proof {
            use_type_invariant(&*self);
        }
        let found = self.position(&stage.name);
        let mut stages: Vec<Stage> = Vec::new();
        std::mem::swap(&mut stages, &mut self.stages);
        match found {
            Some(i) => {
                stages.set(i, stage);
            },
            None => {
                stages.push(stage);
            },
        }
        self.stages = stages;
        proof {
            use_type_invariant(&*self);
        }
    }

    /// Get a stage by name.
    pub fn get_stage(&self, name: &str) -> (stage: Option<&Stage>)
        ensures
            match stage {
                Some(s) => find_stage(self@, name@) == Some(*s),
                None => find_stage(self@, name@) is None,
            },
    {
        let key = name.to_owned();
        match self.position(&key) {
            Some(i) => Some(&self.stages[i]),
            None => None,
        }
    }

    /// Get all stage names, in pipeline order.
    pub fn stage_names(&self) -> (names: Vec<String>)
        ensures
            views(names@) == self@.map_values(|s: Stage| s.name@),
            distinct_names(self@),
    {
        proof {
            use_type_invariant(self);
        }
        let n = self.stages.len();
        let mut names: Vec<String> = Vec::new();
        let mut i: usize = 0;
        while i < n
            invariant
                n == self.stages@.len(),
                i <= n,
                views(names@) == self.stages@.take(i as int).map_values(|s: Stage| s.name@),
            decreases n - i,
        {
            let ghost old_names = names@;
            names.push(self.stages[i].name.clone());
            proof {
                assert(views(names@) =~= views(old_names).push(self.stages@[i as int].name@));
                assert(self.stages@.take(i + 1) == self.stages@.take(i as int).push(
                    self.stages@[i as int],
                ));
                assert(views(names@) =~= self.stages@.take(i + 1).map_values(
                    |s: Stage| s.name@,
                ));
            }
            i = i + 1;
        }
        assert(self.stages@.take(n as int) =~= self.stages@);
        names
    }

    /// Get all stages, in pipeline order.
    pub fn stages(&self) -> (stages: Vec<&Stage>)
        ensures
            stages@.len() == self@.len(),
            forall|i: int| 0 <= i < self@.len() ==> *#[trigger] stages@[i] == self@[i],
            distinct_names(self@),
    {
        proof {
            use_type_invariant(self);
        }
        let n = self.stages.len();
        let mut stages: Vec<&Stage> = Vec::new();
        let mut i: usize = 0;
        while i < n
            invariant
                n == self.stages@.len(),
                i <= n,
                stages@.len() == i,
                forall|k: int| 0 <= k < i ==> *#[trigger] stages@[k] == self.stages@[k],
            decreases n - i,
        {
            stages.push(&self.stages[i]);
            i = i + 1;
        }
        stages
    }

    /// Number of stages.
    pub fn len(&self) -> (n: usize)
        ensures
            n == self@.len(),
            distinct_names(self@),
    {
        proof {
            use_type_invariant(self);
        }
        self.stages.len()
    }

    /// Whether the pipeline is empty.
    pub fn is_empty(&self) -> (empty: bool)
        ensures
            empty == (self@.len() == 0),
    {
        self.stages.len() == 0
    }

    /// Get the stages that have no dependencies (root stages), in pipeline order.
    pub fn root_stages(&self) -> (roots: Vec<&Stage>)
        ensures
            roots@.map_values(|s: &Stage| *s) == root_stages_of(self@),
            distinct_names(self@),
    {
        proof {
            use_type_invariant(self);
        }
        let n = self.stages.len();
        let mut roots: Vec<&Stage> = Vec::new();
        let mut i: usize = 0;
        while i < n
            invariant
                n == self.stages@.len(),
                i <= n,
                roots@.map_values(|s: &Stage| *s) == root_stages_of(self.stages@.take(i as int)),
            decreases n - i,
        {
            let stage = &self.stages[i];
            if stage.dependencies.len() == 0 {
                roots.push(stage);
            }
            proof {
                reveal_with_fuel(Seq::<_>::filter, 1);
                assert(self.stages@.take(i + 1).drop_last() =~= self.stages@.take(i as int));
                assert(roots@.map_values(|s: &Stage| *s) =~= root_stages_of(
                    self.stages@.take(i + 1),
                ));
            }
            i = i + 1;
        }
        assert(self.stages@.take(n as int) =~= self.stages@);
        roots
    }
}

impl Pipeline {
    /// Build the standard four-stage pipeline:
    /// `fmt -> check -> test -> publish-dry-run`.
    pub fn standard_pipeline() -> (pipeline: Pipeline)
        ensures
            pipeline@.len() == 4,
            pipeline@[0].name@ == "fmt"@,
            pipeline@[0].command@ == "cargo fmt -- --check"@,
            dependency_names(pipeline@[0]) == Seq::<Seq<char>>::empty(),
            pipeline@[1].name@ == "check"@,
            pipeline@[1].command@ == "cargo check"@,
            dependency_names(pipeline@[1]) == seq!["fmt"@],
            pipeline@[2].name@ == "test"@,
            pipeline@[2].command@ == "cargo test"@,
            dependency_names(pipeline@[2]) == seq!["check"@],
            pipeline@[3].name@ == "publish-dry-run"@,
            pipeline@[3].command@ == "cargo publish --dry-run"@,
            dependency_names(pipeline@[3]) == seq!["test"@],
    {
        proof {
            reveal_strlit("fmt");
            reveal_strlit("check");
            reveal_strlit("test");
            reveal_strlit("publish-dry-run");
        }
        let mut p = Pipeline::new();
        let fmt = Stage::new("fmt", "cargo fmt -- --check");
        assert(dependency_names(fmt) =~= Seq::<Seq<char>>::empty());
        p.add_stage(fmt);
        assert(!has_stage(p@, "check"@)) by {
            assert("check"@ != "fmt"@) by { assert("check"@.len() != "fmt"@.len()); }
        }
        let check = Stage::new("check", "cargo check").depends_on("fmt");
        p.add_stage(check);
        assert(!has_stage(p@, "test"@)) by {
            assert("test"@ != "fmt"@) by { assert("test"@[0] != "fmt"@[0]); }
            assert("test"@ != "check"@) by { assert("test"@.len() != "check"@.len()); }
        }
        let test = Stage::new("test", "cargo test").depends_on("check");
        p.add_stage(test);
        assert(!has_stage(p@, "publish-dry-run"@)) by {
            assert("publish-dry-run"@.len() != "fmt"@.len());
            assert("publish-dry-run"@.len() != "check"@.len());
            assert("publish-dry-run"@.len() != "test"@.len());
        }
        let publish = Stage::new("publish-dry-run", "cargo publish --dry-run").depends_on("test");
        p.add_stage(publish);
        p
    }
}

impl Default for Pipeline {
    fn default() -> (pipeline: Pipeline)
        ensures
            pipeline@ == Seq::<Stage>::empty(),
    {
        Pipeline::new()
    }
}

/// Adding a stage and then looking up its name gives back that stage, and
/// every other name still gives what it gave before.
pub proof fn law_get_after_add(stages: Seq<Stage>, stage: Stage, name: Seq<char>)
    requires
        distinct_names(stages),
    ensures
        distinct_names(with_stage(stages, stage)),
        find_stage(with_stage(stages, stage), stage.name@) == Some(stage),
        name != stage.name@ ==> find_stage(with_stage(stages, stage), name) == find_stage(
            stages,
            name,
        ),
{
    let after = with_stage(stages, stage);
    if has_stage(stages, stage.name@) {
        let p = stage_position(stages, stage.name@);
        assert(after[p] == stage);
    } else {
        assert(after[stages.len() as int] == stage);
    }
    assert(distinct_names(after));
    lemma_position(after, if has_stage(stages, stage.name@) {
        stage_position(stages, stage.name@)
    } else {
        stages.len() as int
    });
    if name != stage.name@ {
        if has_stage(stages, name) {
            let i = stage_position(stages, name);
            assert(after[i] == stages[i]);
            lemma_position(after, i);
            lemma_position(stages, i);
        } else {
            assert(!has_stage(after, name)) by {
                if has_stage(after, name) {
                    let i = stage_position(after, name);
                    assert(i < stages.len());
                    assert(stages[i].name@ == name);
                }
            }
        }
    }
}

/// Adding a stage grows the pipeline by one exactly when no stage had its name.
pub proof fn law_add_grows_by_new_names(stages: Seq<Stage>, stage: Stage)
    ensures
        with_stage(stages, stage).len() == stages.len() + if has_stage(stages, stage.name@) {
            0int
        } else {
            1int
        },
{
}

/// `validate` succeeds exactly when `execution_order` does, and when one
/// fails the other fails with an error of the same kind.
pub proof fn law_validation_agrees_with_order(
    stages: Seq<Stage>,
    validation: Result<(), PipelineError>,
    order: Result<Vec<String>, PipelineError>,
)
    requires
        is_validation_outcome(stages, validation),
        is_order_outcome(stages, order),
    ensures
        validation is Ok <==> order is Ok,
        validation matches Err(PipelineError::CycleDetected) <==> order matches Err(PipelineError::CycleDetected),
{
    if order is Ok {
        let o = order->Ok_0;
        assert(is_execution_order(stages, views(o@)));
    }
    if let Err(PipelineError::DependencyNotFound(_)) = validation {
        let (i, j) = choose|i: int, j: int| first_missing_dependency(stages, i, j);
        assert(has_stage(stages, stages[i].dependencies@[j]@) ==> false);
    }
    if let Err(PipelineError::DependencyNotFound(_)) = order {
        let (i, j) = choose|i: int, j: int| first_missing_dependency(stages, i, j);
        assert(has_stage(stages, stages[i].dependencies@[j]@) ==> false);
    }
}

/// An execution order names every stage of the pipeline.
pub proof fn law_execution_order_lists_every_stage(stages: Seq<Stage>, order: Seq<Seq<char>>)
    requires
        distinct_names(stages),
        is_execution_order(stages, order),
    ensures
        forall|i: int| 0 <= i < stages.len() ==> order.contains(#[trigger] stages[i].name@),
{
    let n = stages.len() as int;
    let positions = order.map_values(|name: Seq<char>| stage_position(stages, name));
    assert forall|k: int| 0 <= k < positions.len() implies 0 <= #[trigger] positions[k] < n
        && stages[positions[k]].name@ == order[k] by {
        assert(has_stage(stages, order[k]));
    }
    assert(positions.no_duplicates()) by {
        assert forall|a: int, b: int|
            0 <= a < positions.len() && 0 <= b < positions.len() && a != b implies positions[a]
            != positions[b] by {
            assert(has_stage(stages, order[a]));
            assert(has_stage(stages, order[b]));
        }
    }
    positions.unique_seq_to_set();
    vstd::set_lib::lemma_int_range(0, n);
    let range = vstd::set_lib::set_int_range(0, n);
    assert(positions.to_set().subset_of(range)) by {
        assert forall|x: int| positions.to_set().contains(x) implies range.contains(x) by {
            let k = choose|k: int| 0 <= k < positions.len() && positions[k] == x;
            assert(0 <= positions[k] < n);
        }
    }
    vstd::seq_lib::seq_to_set_is_finite(positions);
    vstd::set_lib::lemma_subset_equality(positions.to_set(), range);
    assert forall|i: int| 0 <= i < n implies order.contains(#[trigger] stages[i].name@) by {
        assert(range.contains(i));
        assert(positions.to_set().contains(i));
        let k = choose|k: int| 0 <= k < positions.len() && positions[k] == i;
        assert(order[k] == stages[i].name@);
    }
}

} // verus!
