//! The identifiers the workload model is built from.

use crate::data::Data;
use crate::item_set::ItemSet;
use vstd::prelude::*;

verus! {

/// A reference to a container image: the raw image id, kept as it arrived.
#[derive(Clone, Debug, PartialEq, Eq, Hash, PartialOrd, Ord)]
pub struct ImageRef(pub String);

impl View for ImageRef {
    type V = Seq<char>;

    open spec fn view(&self) -> Seq<char> {
        self.0@
    }
}

impl Data for ImageRef {
    fn same(&self, other: &Self) -> (r: bool) {
        self.0 == other.0
    }

    fn duplicate(&self) -> (r: Self) {
        ImageRef(self.0.clone())
    }
}

impl ImageRef {
    /// The image id as text.
    pub fn as_str(&self) -> (r: &str)
        ensures
            r@ == self@,
    {
        self.0.as_str()
    }
}

/// What a pod reference denotes: its namespace and its name.
pub struct PodRefView {
    pub namespace: Seq<char>,
    pub name: Seq<char>,
}

/// A reference to a pod
#[derive(Clone, Debug, PartialEq, Eq, Hash, PartialOrd, Ord)]
pub struct PodRef {
    pub namespace: String,
    pub name: String,
}

impl View for PodRef {
    type V = PodRefView;

    open spec fn view(&self) -> PodRefView {
        PodRefView { namespace: self.namespace@, name: self.name@ }
    }
}

impl Data for PodRef {
    fn same(&self, other: &Self) -> (r: bool) {
        self.namespace == other.namespace && self.name == other.name
    }

    fn duplicate(&self) -> (r: Self) {
        PodRef { namespace: self.namespace.clone(), name: self.name.clone() }
    }
}

/// The pods that use one image.
pub struct ImageState {
    pub pods: ItemSet<PodRef>,
}

impl View for ImageState {
    type V = Set<PodRefView>;

    open spec fn view(&self) -> Set<PodRefView> {
        self.pods@
    }
}

impl Data for ImageState {
    fn same(&self, other: &Self) -> (r: bool) {
        self.pods.same(&other.pods)
    }

    fn duplicate(&self) -> (r: Self) {
        ImageState { pods: self.pods.duplicate() }
    }
}

impl ImageState {
    /// An image that no pod uses.
    pub fn new() -> (r: Self)
        ensures
            r@ == Set::<PodRefView>::empty(),
    {
        ImageState { pods: ItemSet::new() }
    }
}

} // verus!
