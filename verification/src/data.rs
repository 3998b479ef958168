//! The dataset container: ordered training and testing examples.
//!
//! An example is a pair of an input vector and an expected output vector.
//! Training consumes any source that implements the [`NetworkFood`]
//! capability, not only the concrete [`DataSet`].

use vstd::prelude::*;

use crate::files::read_dset_file;
use crate::files::spec_dset_bytes;
use crate::files::spec_read_dset;
use crate::files::write_dset_file;
use crate::scalar::copy_scalars;

verus! {

/// The mathematical value of a list of examples: each example as a pair of
/// scalar sequences.
pub open spec fn spec_examples(v: Seq<(Vec<u64>, Vec<u64>)>) -> Seq<(Seq<u64>, Seq<u64>)> {
    Seq::new(v.len(), |i: int| (v[i].0@, v[i].1@))
}

/// Read access to ordered training and testing examples; anything that
/// implements it can be fed to the training methods.
pub trait NetworkFood {
    /// The training examples, in order.
    spec fn spec_training(&self) -> Seq<(Seq<u64>, Seq<u64>)>;

    /// The testing examples, in order.
    spec fn spec_testing(&self) -> Seq<(Seq<u64>, Seq<u64>)>;

    /// Hands out the training examples.
    fn grab_training_data(&self) -> (r: &Vec<(Vec<u64>, Vec<u64>)>)
        ensures
            spec_examples(r@) == self.spec_training(),
    ;

    /// Hands out the testing examples.
    fn grab_testing_data(&self) -> (r: &Vec<(Vec<u64>, Vec<u64>)>)
        ensures
            spec_examples(r@) == self.spec_testing(),
    ;
}

/// Whether `output` is an output the labeling function allows for
/// `input`: some call of the function on a vector holding `input` may
/// return a vector holding `output`.
pub open spec fn spec_labeled<F: Fn(Vec<u64>) -> Vec<u64>>(
    func: F,
    input: Seq<u64>,
    output: Seq<u64>,
) -> bool {
    exists|a: Vec<u64>, v: Vec<u64>|
        a@ == input && #[trigger] call_ensures(func, (a,), v) && v@ == output
}

/// The concrete dataset: two ordered lists of examples.
pub struct DataSet {
    pub training_data: Vec<(Vec<u64>, Vec<u64>)>,
    pub testing_data: Vec<(Vec<u64>, Vec<u64>)>,
}

impl NetworkFood for DataSet {
    open spec fn spec_training(&self) -> Seq<(Seq<u64>, Seq<u64>)> {
        spec_examples(self.training_data@)
    }

    open spec fn spec_testing(&self) -> Seq<(Seq<u64>, Seq<u64>)> {
        spec_examples(self.testing_data@)
    }

    fn grab_training_data(&self) -> (r: &Vec<(Vec<u64>, Vec<u64>)>) {
        &self.training_data
    }

    fn grab_testing_data(&self) -> (r: &Vec<(Vec<u64>, Vec<u64>)>) {
        &self.testing_data
    }
}

impl DataSet {
    /// Builds a dataset from the given training and testing examples.
    pub fn new(
        training_data: Vec<(Vec<u64>, Vec<u64>)>,
        testing_data: Vec<(Vec<u64>, Vec<u64>)>,
    ) -> (r: DataSet)
        ensures
            r.training_data@ == training_data@,
            r.testing_data@ == testing_data@,
    {
        DataSet { training_data, testing_data }
    }

    /// Builds a dataset with no examples.
    pub fn empty() -> (r: DataSet)
        ensures
            r.training_data@.len() == 0,
            r.testing_data@.len() == 0,
    {
        DataSet { training_data: Vec::new(), testing_data: Vec::new() }
    }

    /// Appends one example to the training list.
    pub fn push_training_point(&mut self, data_point: (Vec<u64>, Vec<u64>))
        ensures
            final(self).training_data@ == old(self).training_data@.push(data_point),
            final(self).testing_data@ == old(self).testing_data@,
    {
        self.training_data.push(data_point);
    }

    /// Appends one example to the testing list.
    pub fn push_testing_point(&mut self, data_point: (Vec<u64>, Vec<u64>))
        ensures
            final(self).testing_data@ == old(self).testing_data@.push(data_point),
            final(self).training_data@ == old(self).training_data@,
    {
        self.testing_data.push(data_point);
    }

    /// Encodes the dataset in the binary format; the record widths are
    /// taken from the first training example, so a dataset with no
    /// training example cannot be encoded and yields `None`. Every
    /// example is expected to share those widths already; they are not
    /// re-checked here.
    pub fn save(&self) -> (r: Option<Vec<u8>>)
        requires
            self.training_data@.len() <= u32::MAX,
            self.testing_data@.len() <= u32::MAX,
            self.training_data@.len() > 0 ==> self.training_data@[0].0@.len() <= u32::MAX
                && self.training_data@[0].1@.len() <= u32::MAX,
        ensures
            r is Some <==> self.training_data@.len() > 0,
            match r {
                Some(bytes) => bytes@ == spec_dset_bytes(
                    self.training_data@.len() as u32,
                    self.testing_data@.len() as u32,
                    self.training_data@[0].0@.len() as u32,
                    self.training_data@[0].1@.len() as u32,
                    self.spec_training(),
                    self.spec_testing(),
                ),
                None => true,
            },
    {
        if self.training_data.len() == 0 {
            return None;
        }
        let training_count: u32 = self.training_data.len() as u32;
        let testing_count: u32 = self.testing_data.len() as u32;
        let input_size: u32 = self.training_data[0].0.len() as u32;
        let output_size: u32 = self.training_data[0].1.len() as u32;
        Some(
            write_dset_file(
                training_count,
                testing_count,
                input_size,
                output_size,
                &self.training_data,
                &self.testing_data,
            ),
        )
    }

    /// Decodes a dataset from the bytes of a binary dataset file. `None`
    /// means the stream was truncated or corrupt; callers treat that as
    /// fatal, unlike a file that could not be read at all.
    pub fn load(data: &Vec<u8>) -> (r: Option<DataSet>)
        ensures
            match r {
                Some(ds) => spec_read_dset(data@) == Some(
                    (ds.spec_training(), ds.spec_testing()),
                ),
                None => spec_read_dset(data@) is None,
            },
    {
        match read_dset_file(data) {
            Some(p) => Some(DataSet { training_data: p.0, testing_data: p.1 }),
            None => None,
        }
    }

    /// Labels every given input vector with the supplied function: each
    /// produced example pairs an input with one output of the function on
    /// it (the function is meant to be pure, so its contract is all that
    /// is promised of the outputs).
    pub fn gen_from_fn<F: Fn(Vec<u64>) -> Vec<u64>>(
        func: F,
        training_points: Vec<Vec<u64>>,
        testing_points: Vec<Vec<u64>>,
    ) -> (r: DataSet)
        requires
            forall|x: Vec<u64>| #[trigger] call_requires(func, (x,)),
        ensures
            r.spec_training().len() == training_points@.len(),
            r.spec_testing().len() == testing_points@.len(),
            forall|i: int| 0 <= i < training_points@.len() ==> (#[trigger] r.spec_training()[i]).0
                == training_points@[i]@,
            forall|i: int| 0 <= i < testing_points@.len() ==> (#[trigger] r.spec_testing()[i]).0
                == testing_points@[i]@,
            forall|i: int| 0 <= i < training_points@.len() ==> spec_labeled(
                func,
                training_points@[i]@,
                (#[trigger] r.spec_training()[i]).1,
            ),
            forall|i: int| 0 <= i < testing_points@.len() ==> spec_labeled(
                func,
                testing_points@[i]@,
                (#[trigger] r.spec_testing()[i]).1,
            ),
    {
        let mut training_data: Vec<(Vec<u64>, Vec<u64>)> = Vec::new();
        let mut i: usize = 0;
        while i < training_points.len()
            invariant
                forall|x: Vec<u64>| #[trigger] call_requires(func, (x,)),
                0 <= i <= training_points@.len(),
                training_data@.len() == i,
                forall|k: int| 0 <= k < i ==> (#[trigger] training_data@[k]).0@
                    == training_points@[k]@,
                forall|k: int| 0 <= k < i ==> spec_labeled(
                    func,
                    training_points@[k]@,
                    (#[trigger] training_data@[k]).1@,
                ),
            decreases training_points@.len() - i,
        {
            let keep: Vec<u64> = copy_scalars(&training_points[i]);
            let arg: Vec<u64> = copy_scalars(&training_points[i]);
            let ghost arg0 = arg;
            let out: Vec<u64> = func(arg);
            proof {
                assert(call_ensures(func, (arg0,), out));
                assert(spec_labeled(func, training_points@[i as int]@, out@));
            }
            training_data.push((keep, out));
            i += 1;
        }
        let mut testing_data: Vec<(Vec<u64>, Vec<u64>)> = Vec::new();
        let mut i: usize = 0;
        while i < testing_points.len()
            invariant
                forall|x: Vec<u64>| #[trigger] call_requires(func, (x,)),
                0 <= i <= testing_points@.len(),
                testing_data@.len() == i,
                forall|k: int| 0 <= k < i ==> (#[trigger] testing_data@[k]).0@
                    == testing_points@[k]@,
                forall|k: int| 0 <= k < i ==> spec_labeled(
                    func,
                    testing_points@[k]@,
                    (#[trigger] testing_data@[k]).1@,
                ),
            decreases testing_points@.len() - i,
        {
            let keep: Vec<u64> = copy_scalars(&testing_points[i]);
            let arg: Vec<u64> = copy_scalars(&testing_points[i]);
            let ghost arg0 = arg;
            let out: Vec<u64> = func(arg);
            proof {
                assert(call_ensures(func, (arg0,), out));
                assert(spec_labeled(func, testing_points@[i as int]@, out@));
            }
            testing_data.push((keep, out));
            i += 1;
        }
        DataSet { training_data, testing_data }
    }
}

} // verus!
