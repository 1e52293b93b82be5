//! Models: trees that are fitted to tables of numbers.

use crate::aggregation;
use crate::aggregation::{Aggregator, Mean};
use crate::cross_validation::StatsView;
use crate::data::Column;
use crate::float::Float;
use crate::objective::{Accuracy, ClassObjective, ConfusionView};
use crate::options;
use crate::options::{
    build_classification, build_objective, build_regression, Options, UnknownName,
};
use crate::parallel::Workers;
use crate::table;
use crate::table::{
    build_columns, build_rows, class_labels, class_targets, sorted_categorical, Table,
};
use crate::tree::estimator;
use crate::tree::estimator::DecisionTree;
use crate::tree::export;
use crate::tree::growth;
use crate::tree::node::node_routes;
use crate::tree::params::TreeParams;
use crate::tree::restore;
use crate::tree::restore::{
    build_class_node, build_regr_node, tree_to_dict, FlatTree, LeafArrays, TreeArrays,
};
use crate::tree::task::{
    ClassPrediction, Classification, ObjectiveClassification, Regression, Task,
};
use vstd::prelude::*;
use vstd::string::*;

verus! {

/// A tree that is fitted to tables of numbers.
pub struct Model<K: Task> {
    /// The tree.
    pub inner: DecisionTree<K>,
    /// Number of classes; zero for regression.
    pub n_classes: usize,
    /// Numbers of the columns that hold categories, rising.
    pub categorical: Vec<usize>,
    /// Whether there is a fitted tree.
    pub fitted: bool,
}

/// Whether the given columns are those of a table.
pub open spec fn columns_of(columns: Seq<Column>, x: &Table, categorical: Seq<usize>) -> bool {
    &&& columns.len() == x.n_cols
    &&& forall|j: int|
        0 <= j < columns.len() ==> table::column_of(#[trigger] columns[j], x, categorical, j)
}

impl<K: Task> Model<K> {
    /// Whether the categorical columns can be looked up and the tree is there once it is fitted.
    pub open spec fn well_formed(&self) -> bool {
        &&& table::rising(self.categorical@)
        &&& self.fitted == (self.inner.root is Some)
    }

    /// Whether fitting to the given columns leads from `self` to `after` with result `r`.
    pub open spec fn fits(
        &self,
        columns: Seq<Column>,
        targets: Seq<K::Target>,
        after: &Model<K>,
        r: Result<(), String>,
    ) -> bool {
        let task = self.inner.task;
        let params = self.inner.params;
        match estimator::fit_error(task, params, columns, targets.len()) {
            Some(message) => {
                &&& r matches Err(e)
                &&& e@ == message
                &&& after.inner.root == self.inner.root
                &&& after.fitted == self.fitted
            },
            None => {
                &&& r is Ok
                &&& after.fitted
                &&& after.inner.root matches Some(node)
                &&& node@ == estimator::fitted_tree(
                    task,
                    params,
                    aggregation::ranking(&*self.inner.aggregator),
                    columns,
                    targets,
                )
                &&& growth::within_limits(node@, params, columns.len(), targets.len(), 0)
                &&& node@.leaves() <= targets.len()
                &&& node@.depth() < targets.len()
            },
        }
    }

    /// Fits the tree to a table with one row for each target.
    pub fn fit_targets<W: Workers>(
        &mut self,
        x: &Table,
        targets: &[K::Target],
        workers: &W,
    ) -> (r: Result<(), String>)
        requires
            old(self).well_formed(),
            old(self).inner.aggregator.applicable(),
            forall|columns: Seq<Column>| #[trigger]
                columns_of(columns, x, old(self).categorical@) ==> estimator::fit_in_range(
                    old(self).inner.task,
                    old(self).inner.params,
                    columns,
                    targets@.len(),
                ),
            x.full(),
        ensures
            final(self).well_formed(),
            final(self).inner.task == old(self).inner.task,
            final(self).inner.params == old(self).inner.params,
            final(self).inner.aggregator == old(self).inner.aggregator,
            final(self).categorical == old(self).categorical,
            final(self).n_classes == old(self).n_classes,
            exists|columns: Seq<Column>| #[trigger]
                columns_of(columns, x, old(self).categorical@) && old(self).fits(
                    columns,
                    targets@,
                    final(self),
                    r,
                ),
    {
        let columns = build_columns(x, self.categorical.as_slice());
        assert(columns_of(columns@, x, self.categorical@));
        match self.inner.fit_with(columns.as_slice(), targets, workers) {
            Ok(()) => {
                self.fitted = true;
                Ok(())
            },
            Err(e) => Err(e),
        }
    }

    /// Whether every row of a table has the features that are tested on its way to a leaf.
    pub fn can_predict(&self, x: &Table) -> (r: bool)
        requires
            self.well_formed(),
            x.full(),
        ensures
            r == (self.fitted ==> forall|i: int|
                0 <= i < x.n_rows ==> self.inner.root->Some_0@.routes(
                    #[trigger] table::row_of(x, self.categorical@, i),
                )),
    {
        match &self.inner.root {
            None => true,
            Some(node) => {
                let rows = build_rows(x, self.categorical.as_slice());
                let mut i: usize = 0;
                while i < rows.len()
                    invariant
                        i <= rows@.len(),
                        rows@.len() == x.n_rows,
                        self.inner.root == Some(*node),
                        self.fitted,
                        forall|k: int|
                            0 <= k < rows@.len() ==> (#[trigger] rows@[k])@ == table::row_of(
                                x,
                                self.categorical@,
                                k,
                            ),
                        forall|k: int|
                            0 <= k < i ==> node@.routes(
                                #[trigger] table::row_of(x, self.categorical@, k),
                            ),
                    decreases rows@.len() - i,
                {
                    assert(rows@[i as int]@ == table::row_of(x, self.categorical@, i as int));
                    if !node_routes(node, rows[i].as_slice()) {
                        return false;
                    }
                    i += 1;
                }
                true
            },
        }
    }

    /// What the fitted tree predicts for each row of a table.
    pub fn predictions(&self, x: &Table) -> (r: Result<Vec<K::Prediction>, String>)
        requires
            self.well_formed(),
            x.full(),
            self.fitted ==> forall|i: int|
                0 <= i < x.n_rows ==> self.inner.root->Some_0@.routes(
                    #[trigger] table::row_of(x, self.categorical@, i),
                ),
        ensures
            match r {
                Ok(preds) => {
                    &&& self.fitted
                    &&& preds@.len() == x.n_rows
                    &&& forall|i: int|
                        0 <= i < x.n_rows ==> (#[trigger] preds@[i])@
                            == self.inner.root->Some_0@.answer(
                            table::row_of(x, self.categorical@, i),
                        )
                },
                Err(e) => !self.fitted && e@ == "estimator is not fitted"@,
            },
    {
        if !self.fitted {
            return Err("estimator is not fitted".to_owned());
        }
        let rows = build_rows(x, self.categorical.as_slice());
        assert forall|i: int| 0 <= i < rows@.len() implies self.inner.root->Some_0@.routes(
            (#[trigger] rows@[i])@,
        ) by {
            assert(rows@[i]@ == table::row_of(x, self.categorical@, i));
        }
        let preds = self.inner.predict(rows.as_slice());
        assert forall|i: int| 0 <= i < x.n_rows implies (#[trigger] preds@[i])@
            == self.inner.root->Some_0@.answer(table::row_of(x, self.categorical@, i)) by {
            assert(rows@[i]@ == table::row_of(x, self.categorical@, i));
        }
        Ok(preds)
    }

    /// Number of split levels; zero before fitting.
    pub fn depth(&self) -> (r: usize)
        requires
            self.inner.root matches Some(node) ==> node@.depth() <= usize::MAX,
        ensures
            r == match self.inner.root {
                Some(node) => node@.depth(),
                None => 0,
            },
    {
        self.inner.depth()
    }

    /// Number of leaves; zero before fitting.
    pub fn n_leaves(&self) -> (r: usize)
        requires
            self.inner.root matches Some(node) ==> node@.leaves() <= usize::MAX,
        ensures
            r == match self.inner.root {
                Some(node) => node@.leaves(),
                None => 0,
            },
    {
        self.inner.n_leaves()
    }

    /// The fitted tree as parallel arrays, with classes or with values.
    pub fn arrays(&self, with_classes: bool) -> (r: Result<TreeArrays, String>)
        requires
            self.well_formed(),
            self.inner.root matches Some(node) ==> node@.samples() <= usize::MAX,
        ensures
            match r {
                Ok(a) => {
                    let nodes = export::flattened(
                        self.inner.root->Some_0@,
                        export::describing(&self.inner.task),
                        0,
                    );
                    &&& self.fitted
                    &&& a.node_count == nodes.len()
                    &&& a.nodes@ == restore::flat_of(nodes)
                    &&& match a.leaves {
                        LeafArrays::Classes { predicted_class, proba, n_classes } => {
                            &&& with_classes
                            &&& predicted_class@ == restore::classes_of(nodes)
                            &&& restore::contents(proba@) == restore::probas_of(nodes)
                            &&& n_classes == self.n_classes
                        },
                        LeafArrays::Values { value } => !with_classes && value@
                            == restore::values_of(nodes),
                    }
                },
                Err(e) => !self.fitted && e@ == "estimator is not fitted"@,
            },
    {
        if !self.fitted {
            return Err("estimator is not fitted".to_owned());
        }
        let nodes = self.inner.export_nodes();
        assert(export::exported_views(nodes@).len() == nodes@.len());
        Ok(tree_to_dict(nodes.as_slice(), with_classes, self.n_classes))
    }
}

/// The number in row `i` and column `j` of a table of class probabilities: missing ones are zero.
pub open spec fn padded(proba: Seq<Float>, j: int) -> Float {
    if j < proba.len() {
        proba[j]
    } else {
        Float::zero()
    }
}

/// Number of columns of a table of class probabilities.
pub open spec fn proba_width(n_classes: usize) -> usize {
    if n_classes == 0 {
        1
    } else {
        n_classes
    }
}

/// The class probabilities of several predictions as a table with a row for each prediction and a
/// column for each class, at least one.
pub fn proba_table(preds: &[ClassPrediction], n_classes: usize) -> (r: Table)
    requires
        preds@.len() * proba_width(n_classes) <= usize::MAX,
    ensures
        r.full(),
        r.n_rows == preds@.len(),
        r.n_cols == proba_width(n_classes),
        forall|i: int, j: int|
            0 <= i < r.n_rows && 0 <= j < r.n_cols ==> #[trigger] r.at(i, j) == padded(
                preds@[i].proba@,
                j,
            ),
{
    let n: usize = preds.len();
    let c: usize = if n_classes == 0 {
        1
    } else {
        n_classes
    };
    let mut cells: Vec<Float> = Vec::new();
    let mut i: usize = 0;
    while i < n
        invariant
            i <= n,
            n == preds@.len(),
            c == proba_width(n_classes),
            n * c <= usize::MAX,
            cells@.len() == i * c,
            forall|a: int, b: int|
                #![trigger cells@[a * c + b]]
                0 <= a < i && 0 <= b < c ==> cells@[a * c + b] == padded(preds@[a].proba@, b),
        decreases n - i,
    {
        let ghost before = cells@;
        let mut j: usize = 0;
        assert(i * c + c == (i + 1) * c) by (nonlinear_arith);
        while j < c
            invariant
                j <= c,
                i < n,
                n == preds@.len(),
                before.len() == i * c,
                cells@.len() == i * c + j,
                forall|k: int| 0 <= k < before.len() ==> #[trigger] cells@[k] == before[k],
                forall|b: int|
                    0 <= b < j ==> #[trigger] cells@[i * c + b] == padded(preds@[i as int].proba@, b),
            decreases c - j,
        {
            let row = &preds[i].proba;
            if j < row.len() {
                cells.push(row[j]);
            } else {
                cells.push(Float::zero());
            }
            j += 1;
        }
        proof {
            assert forall|a: int, b: int|
                #![trigger cells@[a * c + b]]
                0 <= a < i + 1 && 0 <= b < c implies cells@[a * c + b] == padded(
                preds@[a].proba@,
                b,
            ) by {
                if a < i {
                    assert(0 <= a * c + b < i * c) by (nonlinear_arith)
                        requires
                            0 <= a < i,
                            0 <= b < c,
                    ;
                    assert(cells@[a * c + b] == before[a * c + b]);
                }
            }
        }
        i += 1;
    }
    Table { n_rows: n, n_cols: c, cells }
}

impl<K: Task<Target = usize, Prediction = ClassPrediction>> Model<K> {
    /// Fits the tree to a table with one row for each class id. Ids below zero count as zero.
    pub fn fit_labels<W: Workers>(&mut self, x: &Table, y: &[i64], workers: &W) -> (r: Result<
        (),
        String,
    >)
        requires
            old(self).well_formed(),
            old(self).inner.aggregator.applicable(),
            forall|columns: Seq<Column>| #[trigger]
                columns_of(columns, x, old(self).categorical@) ==> estimator::fit_in_range(
                    old(self).inner.task,
                    old(self).inner.params,
                    columns,
                    y@.len(),
                ),
            x.full(),
        ensures
            final(self).well_formed(),
            final(self).inner.task == old(self).inner.task,
            final(self).inner.params == old(self).inner.params,
            final(self).inner.aggregator == old(self).inner.aggregator,
            final(self).categorical == old(self).categorical,
            final(self).n_classes == old(self).n_classes,
            exists|columns: Seq<Column>| #[trigger]
                columns_of(columns, x, old(self).categorical@) && old(self).fits(
                    columns,
                    table::targets_of(y@),
                    final(self),
                    r,
                ),
    {
        let targets = class_targets(y);
        self.fit_targets(x, targets.as_slice(), workers)
    }

    /// The predicted class of each row of a table.
    pub fn predict_labels(&self, x: &Table) -> (r: Result<Vec<i64>, String>)
        requires
            self.well_formed(),
            x.full(),
            self.fitted ==> forall|i: int|
                0 <= i < x.n_rows ==> self.inner.root->Some_0@.routes(
                    #[trigger] table::row_of(x, self.categorical@, i),
                ),
        ensures
            match r {
                Ok(out) => {
                    &&& self.fitted
                    &&& out@.len() == x.n_rows
                    &&& forall|i: int|
                        0 <= i < x.n_rows ==> #[trigger] out@[i]
                            == self.inner.root->Some_0@.answer(
                            table::row_of(x, self.categorical@, i),
                        ).class as i64
                },
                Err(e) => !self.fitted && e@ == "estimator is not fitted"@,
            },
    {
        match self.predictions(x) {
            Ok(preds) => {
                let out = class_labels(preds.as_slice());
                assert forall|i: int| 0 <= i < x.n_rows implies #[trigger] out@[i]
                    == self.inner.root->Some_0@.answer(
                    table::row_of(x, self.categorical@, i),
                ).class as i64 by {
                    assert(out@[i] == preds@[i]@.class as i64);
                }
                Ok(out)
            },
            Err(e) => Err(e),
        }
    }

    /// The class probabilities of each row of a table.
    pub fn predict_proba(&self, x: &Table) -> (r: Result<Table, String>)
        requires
            self.well_formed(),
            x.full(),
            x.n_rows * proba_width(self.n_classes) <= usize::MAX,
            self.fitted ==> forall|i: int|
                0 <= i < x.n_rows ==> self.inner.root->Some_0@.routes(
                    #[trigger] table::row_of(x, self.categorical@, i),
                ),
        ensures
            match r {
                Ok(t) => {
                    &&& self.fitted
                    &&& t.full()
                    &&& t.n_rows == x.n_rows
                    &&& t.n_cols == proba_width(self.n_classes)
                    &&& forall|i: int, j: int|
                        0 <= i < t.n_rows && 0 <= j < t.n_cols ==> #[trigger] t.at(i, j) == padded(
                            self.inner.root->Some_0@.answer(
                                table::row_of(x, self.categorical@, i),
                            ).proba,
                            j,
                        )
                },
                Err(e) => !self.fitted && e@ == "estimator is not fitted"@,
            },
    {
        match self.predictions(x) {
            Ok(preds) => {
                let t = proba_table(preds.as_slice(), self.n_classes);
                assert forall|i: int, j: int|
                    0 <= i < t.n_rows && 0 <= j < t.n_cols implies #[trigger] t.at(i, j) == padded(
                    self.inner.root->Some_0@.answer(table::row_of(x, self.categorical@, i)).proba,
                    j,
                ) by {
                    assert(preds@[i]@.proba == preds@[i].proba@);
                }
                Ok(t)
            },
            Err(e) => Err(e),
        }
    }
}

/// A classifier by impurity.
pub type RawClassifier = Model<Classification>;

/// A classifier that improves a metric.
pub type RawObjectiveClassifier = Model<ObjectiveClassification>;

/// A regressor.
pub type RawRegressor = Model<Regression>;

impl<K: Task> Model<K> {
    /// Whether this is a model with the given settings that is not fitted yet.
    pub open spec fn fresh(
        &self,
        options: &Options,
        n_classes: usize,
        categorical: Seq<usize>,
    ) -> bool {
        &&& self.well_formed()
        &&& !self.fitted
        &&& self.inner.params == options::params_of(options)
        &&& options::aggregates_as(&*self.inner.aggregator, options)
        &&& self.n_classes == n_classes
        &&& same_columns(self.categorical@, categorical)
    }

    /// Whether this is a fitted model with default settings and the mean over folds.
    pub open spec fn holds(&self, n_classes: usize, categorical: Seq<usize>) -> bool {
        &&& self.well_formed()
        &&& self.fitted
        &&& call_ensures(TreeParams::default, (), self.inner.params)
        &&& self.inner.aggregator.applicable()
        &&& forall|stats: StatsView| #[trigger]
            self.inner.aggregator.score_of(stats) == Mean.score_of(stats)
        &&& self.n_classes == n_classes
        &&& same_columns(self.categorical@, categorical)
    }
}

/// Whether two lists name the same columns.
pub open spec fn same_columns(a: Seq<usize>, b: Seq<usize>) -> bool {
    forall|j: usize| #[trigger] a.contains(j) <==> b.contains(j)
}

impl Model<Classification> {
    /// A classifier with the given settings.
    pub fn new(
        n_classes: usize,
        criterion: &str,
        options: &Options,
        categorical: Vec<usize>,
    ) -> (r: Result<RawClassifier, UnknownName>)
        ensures
            match r {
                Ok(m) => {
                    &&& options::unknown_option(options) is None
                    &&& m.fresh(options, n_classes, categorical@)
                    &&& options::classifies_as(m.inner.task, criterion@, n_classes)
                },
                Err(e) => Some(e) == if criterion@ != "gini"@ && criterion@ != "entropy"@ {
                    Some(UnknownName::ClassCriterion)
                } else {
                    options::unknown_option(options)
                },
            },
    {
        let task = match build_classification(criterion, n_classes) {
            Ok(task) => task,
            Err(e) => {
                return Err(e);
            },
        };
        let params = match options.params() {
            Ok(params) => params,
            Err(e) => {
                return Err(e);
            },
        };
        match options.fold_aggregator() {
            Ok(aggregator) => {
                let inner = DecisionTree::new(task, params, aggregator);
                let categorical = sorted_categorical(categorical);
                Ok(Model { inner, n_classes, categorical, fitted: false })
            },
            Err(e) => Err(e),
        }
    }

    /// A fitted classifier with the tree that the given arrays describe.
    pub fn from_tree(
        tree: &FlatTree,
        class: &[i64],
        proba: &[Vec<Float>],
        n_classes: usize,
        categorical: Vec<usize>,
    ) -> (r: RawClassifier)
        requires
            tree@.ends(0, restore::shorter(class@.len(), proba@.len())),
        ensures
            r.holds(n_classes, categorical@),
            options::classifies_as(r.inner.task, "gini"@, n_classes),
            tree@.describes(
                restore::class_leaves(class@, restore::contents(proba@)),
                0,
                r.inner.root->Some_0@,
            ),
    {
        let root = build_class_node(tree, class, proba, 0);
        let aggregator: Box<dyn Aggregator> = Box::new(Mean);
        let mut inner = DecisionTree::new(
            Classification::gini(n_classes),
            TreeParams::default(),
            aggregator,
        );
        inner.set_fitted_root(root);
        let categorical = sorted_categorical(categorical);
        Model { inner, n_classes, categorical, fitted: true }
    }
}

impl Model<ObjectiveClassification> {
    /// A classifier that improves the named metric, with the given settings.
    pub fn new(
        n_classes: usize,
        objective: &str,
        average: &str,
        pos_label: usize,
        beta: Float,
        options: &Options,
        categorical: Vec<usize>,
    ) -> (r: Result<RawObjectiveClassifier, UnknownName>)
        ensures
            match r {
                Ok(m) => {
                    &&& options::unknown_option(options) is None
                    &&& m.fresh(options, n_classes, categorical@)
                    &&& m.inner.task.n_classes == n_classes
                    &&& m.inner.task.gini.n_classes == n_classes
                    &&& options::named_average(average@, pos_label) matches Some(a)
                    &&& forall|cm: ConfusionView|
                        options::named_metric(objective@, a, beta, cm) == Some(
                            #[trigger] m.inner.task.objective.score_of(cm),
                        )
                },
                Err(e) => Some(e) == if options::named_average(average@, pos_label) is None {
                    Some(UnknownName::Average)
                } else if !options::known_metric(objective@) {
                    Some(UnknownName::Objective)
                } else {
                    options::unknown_option(options)
                },
            },
    {
        let metric = match build_objective(objective, average, pos_label, beta) {
            Ok(metric) => metric,
            Err(e) => {
                return Err(e);
            },
        };
        let task = ObjectiveClassification::with_objective(n_classes, metric);
        let params = match options.params() {
            Ok(params) => params,
            Err(e) => {
                return Err(e);
            },
        };
        match options.fold_aggregator() {
            Ok(aggregator) => {
                let inner = DecisionTree::new(task, params, aggregator);
                let categorical = sorted_categorical(categorical);
                Ok(Model { inner, n_classes, categorical, fitted: false })
            },
            Err(e) => Err(e),
        }
    }

    /// A fitted classifier with the tree that the given arrays describe. The metric takes no part
    /// in prediction.
    pub fn from_tree(
        tree: &FlatTree,
        class: &[i64],
        proba: &[Vec<Float>],
        n_classes: usize,
        categorical: Vec<usize>,
    ) -> (r: RawObjectiveClassifier)
        requires
            tree@.ends(0, restore::shorter(class@.len(), proba@.len())),
        ensures
            r.holds(n_classes, categorical@),
            r.inner.task.n_classes == n_classes,
            forall|cm: ConfusionView| #[trigger]
                r.inner.task.objective.score_of(cm) == Accuracy.score_of(cm),
            tree@.describes(
                restore::class_leaves(class@, restore::contents(proba@)),
                0,
                r.inner.root->Some_0@,
            ),
    {
        let root = build_class_node(tree, class, proba, 0);
        let metric: Box<dyn ClassObjective> = Box::new(Accuracy);
        let aggregator: Box<dyn Aggregator> = Box::new(Mean);
        let mut inner = DecisionTree::new(
            ObjectiveClassification::with_objective(n_classes, metric),
            TreeParams::default(),
            aggregator,
        );
        inner.set_fitted_root(root);
        let categorical = sorted_categorical(categorical);
        Model { inner, n_classes, categorical, fitted: true }
    }
}

impl Model<Regression> {
    /// A regressor with the given settings.
    pub fn new(criterion: &str, options: &Options, categorical: Vec<usize>) -> (r: Result<
        RawRegressor,
        UnknownName,
    >)
        ensures
            match r {
                Ok(m) => {
                    &&& options::unknown_option(options) is None
                    &&& m.fresh(options, 0, categorical@)
                    &&& options::regresses_as(m.inner.task, criterion@)
                },
                Err(e) => Some(e) == if criterion@ != "mse"@ && criterion@ != "variance"@
                    && criterion@ != "mae"@ {
                    Some(UnknownName::ValueCriterion)
                } else {
                    options::unknown_option(options)
                },
            },
    {
        let task = match build_regression(criterion) {
            Ok(task) => task,
            Err(e) => {
                return Err(e);
            },
        };
        let params = match options.params() {
            Ok(params) => params,
            Err(e) => {
                return Err(e);
            },
        };
        match options.fold_aggregator() {
            Ok(aggregator) => {
                let inner = DecisionTree::new(task, params, aggregator);
                let categorical = sorted_categorical(categorical);
                Ok(Model { inner, n_classes: 0, categorical, fitted: false })
            },
            Err(e) => Err(e),
        }
    }

    /// A fitted regressor with the tree that the given arrays describe.
    pub fn from_tree(tree: &FlatTree, value: &[Float], categorical: Vec<usize>) -> (r: RawRegressor)
        requires
            tree@.ends(0, value@.len()),
        ensures
            r.holds(0, categorical@),
            options::regresses_as(r.inner.task, "mse"@),
            tree@.describes(restore::value_leaves(value@), 0, r.inner.root->Some_0@),
    {
        let root = build_regr_node(tree, value, 0);
        let aggregator: Box<dyn Aggregator> = Box::new(Mean);
        let mut inner = DecisionTree::new(Regression::mse(), TreeParams::default(), aggregator);
        inner.set_fitted_root(root);
        let categorical = sorted_categorical(categorical);
        Model { inner, n_classes: 0, categorical, fitted: true }
    }
}

} // verus!
