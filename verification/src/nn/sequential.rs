//! A dynamically dispatched sequence of layers.
use crate::nn::module::Layer;
use crate::text::{parse_index, parsed_index};
use vstd::prelude::*;

verus! {

/// One boxed layer of a [`DynSequential`].
pub struct LayerBox {
    inner: Box<dyn Layer>,
}

impl LayerBox {
    /// The box holds `layer`.
    pub closed spec fn holds<L: Layer + 'static>(&self, layer: L) -> bool {
        let b: Box<dyn Layer> = Box::new(layer);
        self.inner == b
    }

    /// Box `layer` for storage in a dynamic sequence.
    pub fn new<L: Layer + 'static>(layer: L) -> (r: Self)
        ensures
            r.holds(layer),
    {
        LayerBox { inner: Box::new(layer) }
    }
}

/// An ordered sequence of boxed layers; an empty sequence is the identity.
pub struct DynSequential {
    layers: Vec<LayerBox>,
}

impl DynSequential {
    /// The layers, in the order they run.
    pub closed spec fn layers_view(&self) -> Seq<LayerBox> {
        self.layers@
    }

    /// Number of layers, as a spec value.
    pub open spec fn count(&self) -> nat {
        self.layers_view().len()
    }

    /// The child that `name` designates: names are zero-based positions
    /// written in decimal.
    pub open spec fn child(&self, name: Seq<char>) -> Option<LayerBox> {
        match parsed_index(name) {
            Some(i) => if i < self.count() {
                Some(self.layers_view()[i as int])
            } else {
                None
            },
            None => None,
        }
    }

    /// An empty sequence.
    pub fn new() -> (r: Self)
        ensures
            r.layers_view() == Seq::<LayerBox>::empty(),
    {
        DynSequential { layers: Vec::new() }
    }

    /// A sequence of already-boxed layers, kept in the given order.
    pub fn from_layers(layers: Vec<LayerBox>) -> (r: Self)
        ensures
            r.layers_view() == layers@,
    {
        DynSequential { layers }
    }

    /// Append a layer at the end, builder style.
    pub fn with<L: Layer + 'static>(self, layer: L) -> (r: Self)
        ensures
            r.count() == self.count() + 1,
            r.layers_view().drop_last() == self.layers_view(),
            r.layers_view().last().holds(layer),
    {
        let mut layers = self.layers;
        let b = LayerBox::new(layer);
        layers.push(b);
        let r = DynSequential { layers };
        proof {
            assert(r.layers_view().drop_last() =~= self.layers_view());
        }
        r
    }

    pub fn len(&self) -> (r: usize)
        ensures
            r == self.count(),
    {
        self.layers.len()
    }

    pub fn is_empty(&self) -> (r: bool)
        ensures
            r == (self.count() == 0),
    {
        self.layers.len() == 0
    }

    /// The child named `name`: the layer at the position that `name` gives in
    /// decimal, or `None` when `name` is no such text or the position is past
    /// the end.
    pub fn module(&self, name: &str) -> (r: Option<&LayerBox>)
        ensures
            r matches Some(b) ==> self.child(name@) == Some(*b),
            r is None ==> self.child(name@) is None,
    {
        match parse_index(name) {
            Some(i) => if i < self.layers.len() {
                Some(&self.layers[i])
            } else {
                None
            },
            None => None,
        }
    }

    /// The child named `name`, for modification in place; `None` exactly when
    /// [`Self::module`] finds none.
    pub fn module_mut(&mut self, name: &str) -> (r: Option<&mut LayerBox>)
        ensures
            old(self).child(name@) is None <==> r is None,
            r is None ==> final(self).layers_view() == old(self).layers_view(),
            r matches Some(b) ==> old(self).child(name@) == Some(*b),
            r matches Some(b) ==> final(self).layers_view() == old(self).layers_view().update(
                parsed_index(name@)->0 as int,
                *final(b),
            ),
    {
        match parse_index(name) {
            Some(i) => if i < self.layers.len() {
                Some(&mut self.layers[i])
            } else {
                None
            },
            None => None,
        }
    }
}

impl Default for DynSequential {
    fn default() -> (r: Self)
        ensures
            r.layers_view() == Seq::<LayerBox>::empty(),
    {
        Self::new()
    }
}

impl Layer for DynSequential {}

} // verus!
