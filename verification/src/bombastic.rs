//! The enrichment layer: a second store that mirrors which pods use which
//! image and keeps, for every image, how far the search for its SBOM got.

use crate::api::{ImageRef, PodRef, PodRefView};
use crate::data::Data;
use crate::hub::{deliver, deliver_all};
use crate::item_map::ItemMap;
use crate::item_set::ItemSet;
use crate::pubsub::{Event, EventView};
use crate::state::{EntryView, State};
use crate::model::{
    effective, index_for, owned_entries, owners_of, put_events, put_images, put_pods,
    Images,
};
use crate::store::Inner;
use vstd::prelude::*;

verus! {

/// A software bill of materials, as the artifact service sent it.
#[derive(Debug)]
pub struct SBOM {
    pub data: String,
}

impl View for SBOM {
    type V = Seq<char>;

    open spec fn view(&self) -> Seq<char> {
        self.data@
    }
}

impl Data for SBOM {
    fn same(&self, other: &Self) -> (r: bool) {
        self.data == other.data
    }

    fn duplicate(&self) -> (r: Self) {
        SBOM { data: self.data.clone() }
    }
}

/// What an SBOM state denotes.
pub enum SbomStateView {
    Scheduled,
    Failed(Seq<char>),
    Missing,
    Found(Seq<char>),
}

/// How far the search for the SBOM of one image got.
#[derive(Debug)]
pub enum SbomState {
    /// The search is still to be made.
    Scheduled,
    /// The search failed; the text says why.
    Failed(String),
    /// The artifact service has no SBOM for the image.
    Missing,
    /// The SBOM.
    Found(SBOM),
}

impl View for SbomState {
    type V = SbomStateView;

    open spec fn view(&self) -> SbomStateView {
        match self {
            SbomState::Scheduled => SbomStateView::Scheduled,
            SbomState::Failed(message) => SbomStateView::Failed(message@),
            SbomState::Missing => SbomStateView::Missing,
            SbomState::Found(sbom) => SbomStateView::Found(sbom@),
        }
    }
}

impl Data for SbomState {
    fn same(&self, other: &Self) -> (r: bool) {
        match (self, other) {
            (SbomState::Scheduled, SbomState::Scheduled) => true,
            (SbomState::Failed(a), SbomState::Failed(b)) => *a == *b,
            (SbomState::Missing, SbomState::Missing) => true,
            (SbomState::Found(a), SbomState::Found(b)) => a.same(b),
            _ => false,
        }
    }

    fn duplicate(&self) -> (r: Self) {
        match self {
            SbomState::Scheduled => SbomState::Scheduled,
            SbomState::Failed(message) => SbomState::Failed(message.clone()),
            SbomState::Missing => SbomState::Missing,
            SbomState::Found(sbom) => SbomState::Found(sbom.duplicate()),
        }
    }
}

/// What an image denotes.
pub type ImageView = EntryView<PodRefView, SbomStateView>;

/// An image as clients see it: the pods that use it and its SBOM state.
pub struct Image {
    pub pods: ItemSet<PodRef>,
    pub sbom: SbomState,
}

impl View for Image {
    type V = ImageView;

    open spec fn view(&self) -> ImageView {
        EntryView { owners: self.pods@, state: self.sbom@ }
    }
}

impl Data for Image {
    fn same(&self, other: &Self) -> (r: bool) {
        self.pods.same(&other.pods) && self.sbom.same(&other.sbom)
    }

    fn duplicate(&self) -> (r: Self) {
        Image { pods: self.pods.duplicate(), sbom: self.sbom.duplicate() }
    }
}

impl Image {
    /// The image that an entry of the enriched store stands for.
    pub fn from_state(state: State<PodRef, SbomState>) -> (r: Self)
        ensures
            r@ == state@,
    {
        Image { pods: state.owners, sbom: state.state }
    }

    /// The entry of the enriched store that stands for this image.
    pub fn into_state(self) -> (r: State<PodRef, SbomState>)
        ensures
            r@ == self@,
    {
        State { owners: self.pods, state: self.sbom }
    }
}

/// The entries of the enriched store.
pub type Enriched = Images<Seq<char>, PodRefView, SbomStateView>;

/// The entry that mirrors an upstream entry with the given owners: it has
/// these owners and keeps the SBOM state it had, or is `Scheduled` if new.
pub open spec fn merged(cur: Option<ImageView>, owners: Set<PodRefView>) -> ImageView {
    EntryView {
        owners,
        state: match cur {
            Some(e) => e.state,
            None => SbomStateView::Scheduled,
        },
    }
}

/// An upstream snapshot as the enriched store takes it over: every entry
/// with its owners and the state `Scheduled`.
pub open spec fn rescheduled(snapshot: Images<Seq<char>, PodRefView, ()>) -> Enriched {
    Map::new(
        |k: Seq<char>| snapshot.contains_key(k),
        |k: Seq<char>| EntryView { owners: snapshot[k].owners, state: SbomStateView::Scheduled },
    )
}

/// The entry that an upstream event asks the enriched store to hold for
/// its key: for `Added` and `Modified` the merged entry, for `Removed`
/// none.
pub open spec fn mirrored(cur: Option<ImageView>, evt: EventView<Seq<char>, PodRefView, ()>) -> Option<
    ImageView,
> {
    match evt {
        EventView::Added(_, e) => Some(merged(cur, e.owners)),
        EventView::Modified(_, e) => Some(merged(cur, e.owners)),
        _ => None,
    }
}

/// The key an upstream event speaks of, if it speaks of one.
pub open spec fn subject(evt: EventView<Seq<char>, PodRefView, ()>) -> Option<Seq<char>> {
    match evt {
        EventView::Added(k, _) => Some(k),
        EventView::Modified(k, _) => Some(k),
        EventView::Removed(k) => Some(k),
        EventView::Restart(_) => None,
    }
}

/// The entry of `image` with its SBOM state replaced by `state`; none if
/// the image has no entry.
pub open spec fn resolved(images: Enriched, image: Seq<char>, state: SbomStateView) -> Option<ImageView> {
    if images.contains_key(image) {
        Some(EntryView { owners: images[image].owners, state })
    } else {
        None
    }
}

/// The images that an event of the enriched store asks to scan: the image
/// of an `Added` or `Modified` whose state is `Scheduled`, and every
/// `Scheduled` image of a `Restart`.
pub open spec fn scan_set(evt: EventView<Seq<char>, PodRefView, SbomStateView>) -> Set<Seq<char>> {
    match evt {
        EventView::Added(k, e) => if e.state is Scheduled {
            set![k]
        } else {
            Set::empty()
        },
        EventView::Modified(k, e) => if e.state is Scheduled {
            set![k]
        } else {
            Set::empty()
        },
        EventView::Removed(_) => Set::empty(),
        EventView::Restart(m) => Set::new(|k: Seq<char>| m.contains_key(k) && m[k].state is Scheduled),
    }
}

/// The views of image references.
pub open spec fn refs(images: Seq<ImageRef>) -> Seq<Seq<char>> {
    images.map_values(|i: ImageRef| i@)
}

/// The images to scan on an event of the enriched store, each once.
pub fn scan_targets(evt: &Event<ImageRef, PodRef, SbomState>) -> (r: Vec<ImageRef>)
    ensures
        refs(r@).no_duplicates(),
        refs(r@).to_set() == scan_set(evt@),
{
    let mut targets: Vec<ImageRef> = Vec::new();
    proof {
        assert(refs(targets@) =~= Seq::empty());
        assert(refs(targets@).to_set() =~= Set::empty());
    }
    match evt {
        Event::Added(image, state) => {
            if let SbomState::Scheduled = state.state {
                let ghost before = refs(targets@);
                targets.push(image.duplicate());
                proof {
                    assert(refs(targets@) =~= before.push(image@));
                    crate::seqs::lemma_push_fresh(before, image@);
                }
            }
        },
        Event::Modified(image, state) => {
            if let SbomState::Scheduled = state.state {
                let ghost before = refs(targets@);
                targets.push(image.duplicate());
                proof {
                    assert(refs(targets@) =~= before.push(image@));
                    crate::seqs::lemma_push_fresh(before, image@);
                }
            }
        },
        Event::Restart(state) => {
            let n = state.len();
            let ghost ord = state.order();
            let ghost m = state@;
            let mut i: usize = 0;
            while i < n
                invariant
                    i <= n,
                    n == ord.len(),
                    ord == state.order(),
                    ord.no_duplicates(),
                    m == state@,
                    m.dom() == ord.to_set(),
                    refs(targets@).no_duplicates(),
                    forall|k: Seq<char>|
                        #![trigger refs(targets@).contains(k)]
                        refs(targets@).contains(k) <==> ord.take(i as int).contains(k)
                            && m[k].state is Scheduled,
                decreases n - i,
            {
                let image = state.key_at(i);
                let entry = state.value_at(i);
                let ghost before = refs(targets@);
                let ghost done = ord.take(i as int);
                let ghost next = ord.take(i as int + 1);
                proof {
                    assert(entry@ == m[image@]);
                    assert(!before.contains(image@));
                    assert(next =~= done.push(image@));
                    assert(!done.contains(image@)) by {
                        if done.contains(image@) {
                            let j = choose|j: int| 0 <= j < done.len() && done[j] == image@;
                            assert(ord[j] == ord[i as int]);
                        }
                    }
                }
                let ghost mut grew = false;
                if let SbomState::Scheduled = entry.state {
                    targets.push(image.duplicate());
                    proof {
                        grew = true;
                        assert(refs(targets@) =~= before.push(image@));
                        crate::seqs::lemma_push_fresh(before, image@);
                    }
                }
                proof {
                    assert(grew == (m[image@].state is Scheduled));
                    assert(refs(targets@) == if grew {
                        before.push(image@)
                    } else {
                        before
                    });
                    assert forall|k: Seq<char>|
                        #![trigger refs(targets@).contains(k)]
                        refs(targets@).contains(k) <==> next.contains(k) && m[k].state is Scheduled by {
                        assert(before.contains(k) <==> done.contains(k) && m[k].state is Scheduled);
                        if refs(targets@).contains(k) {
                            let j = choose|j: int| 0 <= j < refs(targets@).len() && refs(targets@)[j] == k;
                            if j < before.len() {
                                assert(before[j] == k);
                                assert(before.contains(k));
                                let x = choose|x: int| 0 <= x < done.len() && done[x] == k;
                                assert(next[x] == k);
                            } else {
                                assert(next[i as int] == k);
                            }
                        }
                        if next.contains(k) && m[k].state is Scheduled {
                            let x = choose|x: int| 0 <= x < next.len() && next[x] == k;
                            if x < i {
                                assert(done[x] == k);
                                assert(done.contains(k));
                                assert(before.contains(k));
                                let j = choose|j: int| 0 <= j < before.len() && before[j] == k;
                                assert(refs(targets@)[j] == k);
                            } else {
                                assert(k == image@);
                                assert(refs(targets@)[before.len() as int] == k);
                            }
                        }
                    }
                }
                i += 1;
            }
            proof {
                assert(ord.take(n as int) =~= ord);
                assert forall|k: Seq<char>| refs(targets@).to_set().contains(k) <==> scan_set(evt@).contains(
                    k,
                ) by {
                    assert(ord.to_set().contains(k) <==> m.dom().contains(k));
                }
                assert(refs(targets@).to_set() =~= scan_set(evt@));
            }
        },
        Event::Removed(_) => {},
    }
    targets
}

/// The SBOM state that the outcome of a lookup latches into.
pub fn scan_outcome(result: Result<SBOM, String>) -> (r: SbomState)
    ensures
        r@ == match result {
            Ok(sbom) => SbomStateView::Found(sbom@),
            Err(message) => SbomStateView::Failed(message@),
        },
{
    match result {
        Ok(sbom) => SbomState::Found(sbom),
        Err(message) => SbomState::Failed(message),
    }
}

/// The store of the enrichment layer: images by reference, pods as
/// owners, SBOM states as values.
pub type Workload = Inner<ImageRef, PodRef, SbomState>;

/// The enriched store: for every image in use the pods that use it and
/// its SBOM state.
pub struct ImageMap {
    pub state: Workload,
}

/// An empty enriched store.
pub fn store() -> (r: ImageMap)
    ensures
        r.state.wf(),
        r.state.images() == Map::<Seq<char>, ImageView>::empty(),
        r.state.pods() == Map::<PodRefView, Set<Seq<char>>>::empty(),
        r.state.listeners().dom() == Set::<u128>::empty(),
        r.state.log().len() == 0,
{
    ImageMap { state: Inner::new() }
}

impl ImageMap {
    /// The images as they are now.
    pub fn get_state(&self) -> (r: ItemMap<ImageRef, Image>)
        ensures
            r@ == self.state.images(),
    {
        images(&self.state)
    }
}

/// The images of an enriched store as they are now.
pub fn images(map: &Workload) -> (r: ItemMap<ImageRef, Image>)
    ensures
        r@ == map.images(),
{
    let entries = map.get_state();
    let mut images: ItemMap<ImageRef, Image> = ItemMap::new();
    let n = entries.len();
    let ghost ord = entries.order();
    let mut i: usize = 0;
    while i < n
        invariant
            i <= n,
            n == ord.len(),
            ord == entries.order(),
            entries@.dom() == ord.to_set(),
            forall|k: Seq<char>|
                #![trigger images@.contains_key(k)]
                images@.contains_key(k) <==> ord.take(i as int).contains(k),
            forall|k: Seq<char>| #[trigger] images@.contains_key(k) ==> images@[k] == entries@[k],
        decreases n - i,
    {
        let key = entries.key_at(i);
        let entry = entries.value_at(i);
        let ghost before = images@;
        images.insert(key.duplicate(), Image::from_state(entry.duplicate()));
        proof {
            let done = ord.take(i as int);
            let next = ord.take(i as int + 1);
            assert(next =~= done.push(key@));
            assert(next[i as int] == key@);
            assert forall|k: Seq<char>|
                #![trigger images@.contains_key(k)]
                images@.contains_key(k) <==> next.contains(k) by {
                assert(before.contains_key(k) <==> done.contains(k));
                if done.contains(k) {
                    let j = choose|j: int| 0 <= j < done.len() && done[j] == k;
                    assert(next[j] == k);
                }
                if next.contains(k) && k != key@ {
                    let j = choose|j: int| 0 <= j < next.len() && next[j] == k;
                    assert(done[j] == k);
                }
            }
        }
        i += 1;
    }
    proof {
        assert(ord.take(n as int) =~= ord);
        assert forall|k: Seq<char>| images@.contains_key(k) <==> entries@.contains_key(k) by {
            assert(ord.to_set().contains(k) <==> entries@.dom().contains(k));
        }
        assert(images@ =~= entries@);
    }
    images
}

/// Brings the enriched store up to date with one event of the store it
/// mirrors.
///
/// `Added` and `Modified` set the owners of the image to those of the
/// event and keep its SBOM state, which is `Scheduled` for a new image.
/// `Removed` erases the image. `Restart` replaces everything by the
/// snapshot, every image `Scheduled`, and publishes a single `Restart`.
pub fn mirror(map: &mut Workload, evt: Event<ImageRef, PodRef, ()>)
    requires
        old(map).wf(),
    ensures
        final(map).wf(),
        match subject(evt@) {
            Some(k) => {
                let next = mirrored(old(map).images().get(k), evt@);
                &&& final(map).images() == put_images(old(map).images(), k, next)
                &&& final(map).pods() == put_pods(
                    old(map).pods(),
                    k,
                    owners_of(effective(next)),
                )
                &&& final(map).log() == old(map).log() + put_events(
                    old(map).images(),
                    k,
                    next,
                )
                &&& final(map).listeners() == deliver_all(
                    old(map).listeners(),
                    put_events(old(map).images(), k, next),
                )
            },
            None => {
                let images = owned_entries(rescheduled(evt@->Restart_0));
                &&& final(map).images() == images
                &&& final(map).pods() == index_for(images)
                &&& final(map).log() == old(map).log().push(
                    EventView::Restart(images),
                )
                &&& final(map).listeners() == deliver(
                    old(map).listeners(),
                    EventView::Restart(images),
                )
            },
        },
{
    match evt {
        Event::Added(image, state) => {
            merge(map, image, state.owners);
        },
        Event::Modified(image, state) => {
            merge(map, image, state.owners);
        },
        Event::Removed(image) => {
            map.put(image, None);
        },
        Event::Restart(snapshot) => {
            let mut images: ItemMap<ImageRef, State<PodRef, SbomState>> = ItemMap::new();
            let n = snapshot.len();
            let ghost ord = snapshot.order();
            let ghost src = snapshot@;
            let mut i: usize = 0;
            while i < n
                invariant
                    i <= n,
                    n == ord.len(),
                    ord == snapshot.order(),
                    src == snapshot@,
                    src.dom() == ord.to_set(),
                    forall|k: Seq<char>|
                        #![trigger images@.contains_key(k)]
                        images@.contains_key(k) <==> ord.take(i as int).contains(k),
                    forall|k: Seq<char>| #[trigger]
                        images@.contains_key(k) ==> images@[k] == rescheduled(src)[k],
                decreases n - i,
            {
                let key = snapshot.key_at(i);
                let entry = snapshot.value_at(i);
                let ghost before = images@;
                images.insert(
                    key.duplicate(),
                    State { owners: entry.owners.duplicate(), state: SbomState::Scheduled },
                );
                proof {
                    let done = ord.take(i as int);
                    let next = ord.take(i as int + 1);
                    assert(next =~= done.push(key@));
                    assert(next[i as int] == key@);
                    assert forall|k: Seq<char>|
                        #![trigger images@.contains_key(k)]
                        images@.contains_key(k) <==> next.contains(k) by {
                        assert(before.contains_key(k) <==> done.contains(k));
                        if done.contains(k) {
                            let j = choose|j: int| 0 <= j < done.len() && done[j] == k;
                            assert(next[j] == k);
                        }
                        if next.contains(k) && k != key@ {
                            let j = choose|j: int| 0 <= j < next.len() && next[j] == k;
                            assert(done[j] == k);
                        }
                    }
                }
                i += 1;
            }
            proof {
                assert(ord.take(n as int) =~= ord);
                assert forall|k: Seq<char>| images@.contains_key(k) <==> rescheduled(
                    src,
                ).contains_key(k) by {
                    assert(ord.to_set().contains(k) <==> src.dom().contains(k));
                }
                assert(images@ =~= rescheduled(src));
            }
            map.set_state(&images);
        },
    }
}

/// Sets the owners of `image` to `owners` and keeps its SBOM state,
/// which is `Scheduled` for a new image.
fn merge(map: &mut Workload, image: ImageRef, owners: ItemSet<PodRef>)
    requires
        old(map).wf(),
    ensures
        final(map).wf(),
        final(map).images() == put_images(
            old(map).images(),
            image@,
            Some(merged(old(map).images().get(image@), owners@)),
        ),
        final(map).pods() == put_pods(
            old(map).pods(),
            image@,
            owners_of(effective(Some(merged(old(map).images().get(image@), owners@)))),
        ),
        final(map).log() == old(map).log() + put_events(
            old(map).images(),
            image@,
            Some(merged(old(map).images().get(image@), owners@)),
        ),
        final(map).listeners() == deliver_all(
            old(map).listeners(),
            put_events(
                old(map).images(),
                image@,
                Some(merged(old(map).images().get(image@), owners@)),
            ),
        ),
{
    let sbom = match map.entry(&image) {
        Some(current) => current.state,
        None => SbomState::Scheduled,
    };
    map.put(image, Some(State { owners, state: sbom }));
}

/// Latches the outcome of a scan of `image`: its SBOM state becomes
/// `state`. An image that was removed meanwhile stays removed.
pub fn record(map: &mut Workload, image: &ImageRef, state: SbomState)
    requires
        old(map).wf(),
    ensures
        final(map).wf(),
        !old(map).images().contains_key(image@) ==> {
            &&& final(map).images() == old(map).images()
            &&& final(map).pods() == old(map).pods()
            &&& final(map).log() == old(map).log()
            &&& final(map).listeners() == old(map).listeners()
        },
        old(map).images().contains_key(image@) ==> {
            let next = resolved(old(map).images(), image@, state@);
            &&& final(map).images() == old(map).images().insert(image@, next->0)
            &&& final(map).pods() == old(map).pods()
            &&& final(map).log() == old(map).log() + put_events(
                old(map).images(),
                image@,
                next,
            )
            &&& final(map).listeners() == deliver_all(
                old(map).listeners(),
                put_events(old(map).images(), image@, next),
            )
        },
{
    match map.entry(image) {
        Some(current) => {
            let ghost p = map.images();
            let ghost q = map.pods();
            let ghost kv = image@;
            let next = State { owners: current.owners, state };
            proof {
                assert(p[kv].owners != Set::<PodRefView>::empty());
                let goal = put_pods(q, kv, next@.owners);
                assert forall|o: PodRefView| goal.contains_key(o) <==> q.contains_key(o) by {
                    assert((p.contains_key(kv) && p[kv].owners.contains(o)) <==> (q.contains_key(o)
                        && q[o].contains(kv)));
                }
                assert forall|o: PodRefView| goal.contains_key(o) implies goal[o] == q[o] by {
                    assert((p.contains_key(kv) && p[kv].owners.contains(o)) <==> (q.contains_key(o)
                        && q[o].contains(kv)));
                    if next@.owners.contains(o) {
                        assert(q[o].insert(kv) =~= q[o]);
                    } else {
                        assert(q[o].remove(kv) =~= q[o]);
                    }
                }
                assert(goal =~= q);
            }
            map.put(image.duplicate(), Some(next));
        },
        None => {},
    }
}

} // verus!
