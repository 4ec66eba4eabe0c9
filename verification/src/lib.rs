//! Two operations on columnar data, proved down to the calls into polars: the full outer join of
//! several frames that are sorted by the same keys, and a lasso regression over exponentially
//! weighted rows.
//!
//! The join: [`join_many`] puts it together from the checks in [`join_inputs`], the keys in
//! [`row_keys`], the merge in [`merge`] and the rows of a group in [`layout`]; [`frames`] and
//! [`names`] hold the calls into polars. What the merge and the result promise is proved in
//! [`join_laws`], [`result_laws`] and [`key_laws`]. What the whole join is, in terms of the cells
//! of the frames, is stated in [`outer_join_laws`], with [`parting_laws`] on how rows fall into
//! groups and [`acceptance_laws`] on which frames are refused and why. Further laws relate one join
//! to another: with a frame without rows ([`empty_laws`]), with the frames in another order
//! ([`order_laws`], [`reordering_laws`]) and with the frames joined one after the other
//! ([`nesting_laws`], [`nested_join_laws`]).
//!
//! The regression: [`lasso`] takes in one row, [`lasso_columns`] runs over columns, on any number
//! type of [`scalar`], such as [`fixed`], whose operations [`fixed_laws`] describes. What holds
//! over any rows is proved in [`lasso_laws`] and [`step_laws`], and of whole columns in
//! [`column_laws`]. What holds where nothing is rounded is proved on [`reals`]: what the sums, the
//! thresholds and the coefficients are in terms of the rows ([`fit_laws`]), that no step makes the
//! objective worse ([`objective_laws`]), and how the coefficients follow the columns
//! ([`scaling_laws`], [`idle_laws`]).
//!
//! [`join_node`] and [`lasso_node`] are both operations as steps of a pipeline.
pub mod acceptance_laws;
pub mod column_laws;
pub mod columns;
pub mod empty_laws;
pub mod fit_laws;
pub mod fixed;
pub mod fixed_laws;
pub mod frames;
pub mod idle_laws;
pub mod join_inputs;
pub mod join_laws;
pub mod join_many;
pub mod join_node;
pub mod key_laws;
pub mod lasso;
pub mod lasso_columns;
pub mod lasso_laws;
pub mod lasso_node;
pub mod layout;
pub mod merge;
pub mod names;
pub mod nested_join_laws;
pub mod nesting_laws;
pub mod objective_laws;
pub mod order_laws;
pub mod outer_join_laws;
pub mod parting_laws;
pub mod reals;
pub mod reordering_laws;
pub mod result_laws;
pub mod row_keys;
pub mod scalar;
pub mod scaling_laws;
pub mod step_laws;
