# cvdt

Cross-validated decision trees, verified with Verus.

A decision tree is grown by choosing the best split at every node. Here the score of a split is its
impurity decrease, or its gain in a metric, on the held-out folds of a K-fold cross-validation; an
aggregator turns the fold scores into one number. Classification by impurity, classification by a
metric, and regression are supported, each with two ways to evaluate splits: on the columns with cut
points fit on every training fold (`SplitMode::Strict`), or from histograms over data that is binned
once (`SplitMode::Fast`).

## Layout

- `src/` is the library. Every function is verified; the contracts say which tree is grown, what it
  predicts and which error comes when. Numbers are binary64 patterns (`Float`) with arithmetic on
  integers, rounded to the nearest number, ties to even.
- `tests/` runs the library on concrete data.
- `app/` is the Python extension module: numpy arrays in and out, features evaluated on threads.

## What is proved

- Growing: the tree is a function of the data and the settings, and the number of workers does not
  change it. It keeps to the depth limit and to the smallest sizes of splits and leaves, and it
  counts in each leaf the training samples that reach it.
- Prediction: a leaf predicts what the task says of the targets that reach it; missing values and
  unknown categories go right at every rule.
- Folds: they are a permutation of the samples, each sample validates in exactly one fold, and the
  compact assignment agrees with the fold lists.
- Histograms: scores from counts are the scores of the labels that were counted. On categorical
  features, candidates and fold scores are the same from histograms as from columns. A sample goes
  to the same side by its bin code as by the rule that the tree keeps.
- Export: the list of nodes links up to a tree, with children behind their parent.
- Storage: a tree that is stored as arrays and built again is the same tree.
- Leakage: cut points follow from the training samples of a fold, impurity decreases from its
  validation targets, and the classes that a metric scores from its training labels. A node is
  split only where some finite score exceeds the limit.
- Numbers: sums, differences, products, quotients and roots are the nearest representable number;
  logarithms are computed to 64 binary places.

```rust
use cvdt::{Classification, Column, DecisionTree, FeatureValue, Float, Mean, TreeParams};

let columns = vec![Column::Continuous(x)];
let mut tree = DecisionTree::new(Classification::gini(2), TreeParams::default(), Box::new(Mean));
tree.fit(&columns, &y)?;
let prediction = tree.predict_one(&[FeatureValue::cont(Float::from_bits(0.42f64.to_bits()))]);
```
