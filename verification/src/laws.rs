//! The library's general laws, stated on their own so a reader sees them
//! in one place. Each is proved from the public specifications alone.

use vstd::prelude::*;

use crate::data::DataSet;
use crate::data::NetworkFood;
use crate::files::lemma_dset_round_trip;
use crate::files::spec_dset_bytes;
use crate::files::spec_read_dset;
use crate::network::spec_consistent;
use crate::network::spec_load_result;
use crate::network::spec_pulse;
use crate::network::Model;
use crate::network::Network;
use crate::neur::lemma_neur_round_trip;
use crate::neur::spec_render_neur;
use crate::neur::spec_token_ok;
use crate::neur::NeurError;
use crate::scalar::ScalarOps;

verus! {

/// Shape invariant: a well-formed network holds one layer per stage
/// after the first, and layer `l` holds `shape[l + 1]` neurons — one
/// bias and one weight row each — with `shape[l]` weights per row.
pub proof fn lemma_shape_invariant(net: Network)
    requires
        net.wf(),
    ensures
        net.model().len() == net.shape@.len() - 1,
        forall|l: int| 0 <= l < net.model().len() ==> (#[trigger] net.model()[l]).1.len()
            == net.shape@[l + 1],
        forall|l: int| 0 <= l < net.model().len() ==> (#[trigger] net.model()[l]).0.len()
            == net.shape@[l + 1],
        forall|l: int, n: int|
            0 <= l < net.model().len() && 0 <= n < net.model()[l].0.len() ==> (
            #[trigger] net.model()[l].0[n]).len() == net.shape@[l],
{
    assert forall|l: int, n: int|
        0 <= l < net.model().len() && 0 <= n < net.model()[l].0.len() implies (
    #[trigger] net.model()[l].0[n]).len() == net.shape@[l] by {
        assert(net.layers@[l].wf(net.shape@[l + 1] as nat, net.shape@[l] as nat));
        assert(net.layers@[l].ws()[n].len() == net.shape@[l]);
    }
}

/// Forward-pass determinism: the pulse is a function of the parameters
/// and the input alone, so two evaluations of an unmutated network on
/// the same input yield identical output (the executable pulse returns
/// exactly this value, by its contract).
pub proof fn lemma_pulse_deterministic<O: ScalarOps>(
    m1: Model,
    m2: Model,
    input1: Seq<u64>,
    input2: Seq<u64>,
)
    requires
        m1 == m2,
        input1 == input2,
    ensures
        spec_pulse::<O>(m1, input1) == spec_pulse::<O>(m2, input2),
{
}

/// Round trip of the text format at the network level: loading the saved
/// parameters of a well-formed network reproduces the same shape and
/// every weight and bias exactly, provided each scalar's rendered
/// literal survives the trip (non-empty, free of structural bytes, and
/// read back to the same scalar — what a shortest-round-trip decimal
/// rendering of doubles provides). The executable `save` returns exactly
/// the rendering this speaks of, and `load` returns exactly this
/// result, by their contracts.
pub proof fn lemma_network_round_trip<O: ScalarOps>(net: Network)
    requires
        net.wf(),
        forall|l: int, n: int, w: int|
            0 <= l < net.spec_weights().len() && 0 <= n < net.spec_weights()[l].len() && 0 <= w
                < net.spec_weights()[l][n].len() ==> spec_token_ok::<O>(
                #[trigger] net.spec_weights()[l][n][w],
            ),
        forall|l: int, n: int|
            0 <= l < net.spec_biases().len() && 0 <= n < net.spec_biases()[l].len()
                ==> spec_token_ok::<O>(#[trigger] net.spec_biases()[l][n]),
    ensures
        spec_load_result::<O>(
            spec_render_neur::<O>(net.shape@, net.spec_weights(), net.spec_biases()),
        ) == Ok::<_, NeurError>((net.shape@, net.spec_weights(), net.spec_biases())),
{
    lemma_neur_round_trip::<O>(net.shape@, net.spec_weights(), net.spec_biases());
    assert(spec_consistent(net.shape@, net.spec_weights(), net.spec_biases())) by {
        assert forall|l: int, n: int|
            0 <= l < net.spec_weights().len() && 0 <= n < net.spec_weights()[l].len() implies (
        #[trigger] net.spec_weights()[l][n]).len() == net.shape@[l] by {
            assert(net.layers@[l].wf(net.shape@[l + 1] as nat, net.shape@[l] as nat));
            assert(net.spec_weights()[l] == net.model()[l].0);
            assert(net.model()[l].0[n] == net.layers@[l].ws()[n]);
        }
    }
}

/// Round trip of the binary format at the container level: decoding the
/// encoding of a non-empty dataset whose examples all share the widths
/// of its first training example reproduces the training and testing
/// example sequences exactly, in order. The executable `save` returns
/// exactly the encoding this speaks of, and `load` decodes exactly as
/// this says, by their contracts.
pub proof fn lemma_dataset_round_trip(ds: DataSet)
    requires
        0 < ds.spec_training().len() <= u32::MAX,
        ds.spec_testing().len() <= u32::MAX,
        forall|i: int| 0 <= i < ds.spec_training().len() ==> (#[trigger] ds.spec_training()[
        i]).0.len() == ds.spec_training()[0].0.len() && ds.spec_training()[i].1.len()
            == ds.spec_training()[0].1.len(),
        forall|i: int| 0 <= i < ds.spec_testing().len() ==> (#[trigger] ds.spec_testing()[
        i]).0.len() == ds.spec_training()[0].0.len() && ds.spec_testing()[i].1.len()
            == ds.spec_training()[0].1.len(),
        ds.spec_training()[0].0.len() <= u32::MAX,
        ds.spec_training()[0].1.len() <= u32::MAX,
    ensures
        spec_read_dset(
            spec_dset_bytes(
                ds.spec_training().len() as u32,
                ds.spec_testing().len() as u32,
                ds.spec_training()[0].0.len() as u32,
                ds.spec_training()[0].1.len() as u32,
                ds.spec_training(),
                ds.spec_testing(),
            ),
        ) == Some((ds.spec_training(), ds.spec_testing())),
{
    lemma_dset_round_trip(
        ds.spec_training().len() as u32,
        ds.spec_testing().len() as u32,
        ds.spec_training()[0].0.len() as u32,
        ds.spec_training()[0].1.len() as u32,
        ds.spec_training(),
        ds.spec_testing(),
    );
}

} // verus!
