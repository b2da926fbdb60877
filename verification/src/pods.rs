//! The pod adapter: it turns what a cluster watcher reports of pods into
//! operations on a store that maps image references to the pods using them.

use crate::api::{ImageRef, ImageState, PodRef, PodRefView};
use crate::data::Data;
use crate::hub::deliver_all;
use crate::item_map::ItemMap;
use crate::item_set::ItemSet;
use crate::pubsub::EventView;
use crate::state::State;
use crate::laws::lemma_applied_unit;
use crate::model::{applied, consistent, reconcile, released, Images, Index};
use crate::store::Inner;
use vstd::prelude::*;

verus! {

/// What the cluster reports of one container: the id of the image it runs.
pub struct ContainerStatus {
    pub image_id: String,
}

/// What the cluster reports of one pod, as far as the adapter reads it.
pub struct Pod {
    pub namespace: Option<String>,
    pub name: Option<String>,
    pub container_statuses: Vec<ContainerStatus>,
    pub init_container_statuses: Vec<ContainerStatus>,
    pub ephemeral_container_statuses: Vec<ContainerStatus>,
}

/// What the watcher reports.
pub enum WatchEvent {
    /// A pod was added or changed.
    Applied(Pod),
    /// A pod was deleted.
    Deleted(Pod),
    /// The watch started over; these are all the pods.
    Restarted(Vec<Pod>),
}

/// The entries of the pod adapter's store.
pub type PodImages = Images<Seq<char>, PodRefView, ()>;

/// The index of the pod adapter's store.
pub type PodIndex = Index<Seq<char>, PodRefView>;

/// The reference by which a pod is tracked: none unless both its namespace
/// and its name are known.
pub open spec fn pod_key(pod: Pod) -> Option<PodRefView> {
    match (pod.namespace, pod.name) {
        (Some(namespace), Some(name)) => Some(PodRefView { namespace: namespace@, name: name@ }),
        _ => None,
    }
}

/// The image ids that occur in `statuses`, but for the empty one.
pub open spec fn image_ids(statuses: Seq<ContainerStatus>) -> Set<Seq<char>> {
    Set::new(
        |id: Seq<char>|
            id.len() > 0 && exists|i: int|
                0 <= i < statuses.len() && (#[trigger] statuses[i]).image_id@ == id,
    )
}

/// The images of a pod: the image ids of its regular, init and ephemeral
/// containers.
pub open spec fn pod_images(pod: Pod) -> Set<Seq<char>> {
    image_ids(pod.container_statuses@).union(image_ids(pod.init_container_statuses@)).union(
        image_ids(pod.ephemeral_container_statuses@),
    )
}

/// The maps that hold exactly what `pods` say: what applying each pod in
/// turn makes of empty maps. Pods without reference are passed over.
pub open spec fn indexed(pods: Seq<Pod>) -> (PodImages, PodIndex)
    decreases pods.len(),
{
    if pods.len() == 0 {
        (Map::empty(), Map::empty())
    } else {
        let (images, index) = indexed(pods.drop_last());
        match pod_key(pods.last()) {
            Some(owner) => reconcile(images, index, owner, pod_images(pods.last())),
            None => (images, index),
        }
    }
}

/// The image reference of a container: its image id, unless that is empty.
pub fn to_container_id(container: ContainerStatus) -> (r: Option<ImageRef>)
    ensures
        r is Some == (container.image_id@.len() > 0),
        r matches Some(image) ==> image@ == container.image_id@,
{
    if container.image_id.as_str().is_empty() {
        return None;
    }
    Some(ImageRef(container.image_id))
}

/// create a key for a pod
pub fn to_key(pod: &Pod) -> (r: Option<PodRef>)
    ensures
        r is Some == pod_key(*pod) is Some,
        r matches Some(key) ==> key@ == pod_key(*pod)->0,
{
    match (&pod.namespace, &pod.name) {
        (Some(namespace), Some(name)) => Some(
            PodRef { namespace: namespace.clone(), name: name.clone() },
        ),
        _ => None,
    }
}

/// Adds the image references of `statuses` to `images`.
fn collect(images: &mut ItemSet<ImageRef>, statuses: &Vec<ContainerStatus>)
    ensures
        final(images)@ == old(images)@.union(image_ids(statuses@)),
{
    let n = statuses.len();
    let mut i: usize = 0;
    proof {
        assert(image_ids(statuses@.take(0)) =~= Set::empty());
        assert(images@.union(Set::empty()) =~= images@);
    }
    while i < n
        invariant
            i <= n,
            n == statuses.len(),
            images@ == old(images)@.union(image_ids(statuses@.take(i as int))),
        decreases n - i,
    {
        let container = ContainerStatus { image_id: statuses[i].image_id.clone() };
        let ghost id = container.image_id@;
        assert(id == statuses@[i as int].image_id@);
        match to_container_id(container) {
            Some(image) => {
                let _ = images.insert(image);
            },
            None => {},
        }
        proof {
            let done = statuses@.take(i as int);
            let next = statuses@.take(i as int + 1);
            assert(next =~= done.push(statuses@[i as int]));
            assert forall|x: Seq<char>| image_ids(next).contains(x) <==> (image_ids(done).contains(x)
                || (x == id && id.len() > 0)) by {
                if image_ids(next).contains(x) {
                    let j = choose|j: int| 0 <= j < next.len() && (#[trigger] next[j]).image_id@ == x;
                    if j < i {
                        assert(done[j].image_id@ == x);
                    }
                }
                if image_ids(done).contains(x) {
                    let j = choose|j: int| 0 <= j < done.len() && (#[trigger] done[j]).image_id@ == x;
                    assert(next[j].image_id@ == x);
                }
                if x == id && id.len() > 0 {
                    assert(next[i as int].image_id@ == x);
                }
            }
            assert(images@ =~= old(images)@.union(image_ids(next)));
        }
        i += 1;
    }
    assert(statuses@.take(n as int) =~= statuses@);
}

/// The images of a pod that stays with the caller.
fn images_of(pod: &Pod) -> (r: ItemSet<ImageRef>)
    ensures
        r@ == pod_images(*pod),
{
    let mut images = ItemSet::new();
    collect(&mut images, &pod.container_statuses);
    collect(&mut images, &pod.init_container_statuses);
    collect(&mut images, &pod.ephemeral_container_statuses);
    assert(images@ =~= pod_images(*pod));
    images
}

/// collect all container images from a pod
pub fn images_from_pod(pod: Pod) -> (r: ItemSet<ImageRef>)
    ensures
        r@ == pod_images(pod),
{
    images_of(&pod)
}

/// The state of a freshly tracked image in the pod adapter's store.
pub fn unit_state(key: &ImageRef) -> (r: ()) {
}

/// The state of an image whose pods changed: what it was.
pub fn keep_state(key: &ImageRef, state: ()) -> (r: ())
    ensures
        r == state,
{
    state
}

/// The two maps that hold exactly what `pods` say.
pub fn to_state(pods: Vec<Pod>) -> (r: (
    ItemMap<ImageRef, State<PodRef, ()>>,
    ItemMap<PodRef, ItemSet<ImageRef>>,
))
    ensures
        (r.0@, r.1@) == indexed(pods@),
        consistent(r.0@, r.1@),
{
    let mut scratch: Inner<ImageRef, PodRef, ()> = Inner::new();
    let n = pods.len();
    let mut i: usize = 0;
    while i < n
        invariant
            i <= n,
            n == pods.len(),
            scratch.wf(),
            (scratch.images(), scratch.pods()) == indexed(pods@.take(i as int)),
        decreases n - i,
    {
        let pod = &pods[i];
        let ghost p = scratch.images();
        let ghost q = scratch.pods();
        let ghost earlier = scratch;
        proof {
            assert(pods@.take(i as int + 1).drop_last() =~= pods@.take(i as int));
            assert(pods@.take(i as int + 1).last() == *pod);
        }
        match to_key(pod) {
            Some(pod_ref) => {
                let images = images_of(pod);
                scratch.apply(pod_ref, images, unit_state, keep_state);
                proof {
                    lemma_applied_unit::<ImageRef, PodRefView, _, _>(
                        p,
                        q,
                        pod_ref@,
                        pod_images(*pod),
                        unit_state,
                        keep_state,
                        scratch.images(),
                        scratch.pods(),
                        scratch.news(&earlier),
                    );
                }
            },
            None => {},
        }
        i += 1;
    }
    proof {
        assert(pods@.take(n as int) =~= pods@);
    }
    scratch.into_maps()
}

/// What `handle` does with one report of the watcher. A pod that was
/// added or changed is applied with its images; a deleted pod is released;
/// a pod without reference is passed over; a restart replaces both maps
/// by what the listed pods say and publishes a single `Restart`.
pub open spec fn handled(
    pre: PodImages,
    pre_pods: PodIndex,
    evt: WatchEvent,
    post: PodImages,
    post_pods: PodIndex,
    events: Seq<EventView<Seq<char>, PodRefView, ()>>,
) -> bool {
    match evt {
        WatchEvent::Applied(pod) => match pod_key(pod) {
            Some(owner) => applied::<ImageRef, PodRefView, (), _, _>(
                pre,
                pre_pods,
                owner,
                pod_images(pod),
                unit_state,
                keep_state,
                post,
                post_pods,
                events,
            ),
            None => post == pre && post_pods == pre_pods && events == Seq::<
                EventView<Seq<char>, PodRefView, ()>,
            >::empty(),
        },
        WatchEvent::Deleted(pod) => match pod_key(pod) {
            Some(owner) => released::<ImageRef, PodRefView, (), _>(
                pre,
                pre_pods,
                owner,
                keep_state,
                post,
                post_pods,
                events,
            ),
            None => post == pre && post_pods == pre_pods && events == Seq::<
                EventView<Seq<char>, PodRefView, ()>,
            >::empty(),
        },
        WatchEvent::Restarted(pods) => {
            &&& post == indexed(pods@).0
            &&& post_pods == indexed(pods@).1
            &&& events == seq![EventView::Restart(indexed(pods@).0)]
        },
    }
}

/// An empty store for images and the pods that use them.
pub fn image_store() -> (r: Inner<ImageRef, PodRef, ()>)
    ensures
        r.wf(),
        r.images() == Map::<Seq<char>, crate::state::EntryView<PodRefView, ()>>::empty(),
        r.pods() == Map::<PodRefView, Set<Seq<char>>>::empty(),
        r.listeners().dom() == Set::<u128>::empty(),
        r.log().len() == 0,
{
    Inner::new()
}

/// Brings `inner` up to date with one report of the watcher.
pub fn handle(inner: &mut Inner<ImageRef, PodRef, ()>, evt: WatchEvent)
    requires
        old(inner).wf(),
    ensures
        final(inner).wf(),
        final(inner).log() == old(inner).log() + final(inner).news(old(inner)),
        handled(
            old(inner).images(),
            old(inner).pods(),
            evt,
            final(inner).images(),
            final(inner).pods(),
            final(inner).news(old(inner)),
        ),
        final(inner).listeners() == deliver_all(old(inner).listeners(), final(inner).news(old(inner))),
{
    let ghost log0 = inner.log();
    match evt {
        WatchEvent::Applied(pod) => {
            match to_key(&pod) {
                Some(pod_ref) => {
                    let images = images_from_pod(pod);
                    inner.apply(pod_ref, images, unit_state, keep_state);
                },
                None => {
                    proof {
                        assert(inner.news(old(inner)) =~= Seq::empty());
                        assert(inner.log() =~= log0 + inner.news(old(inner)));
                    }
                },
            }
        },
        WatchEvent::Deleted(pod) => {
            match to_key(&pod) {
                Some(pod_ref) => {
                    inner.delete(&pod_ref, keep_state);
                },
                None => {
                    proof {
                        assert(inner.news(old(inner)) =~= Seq::empty());
                        assert(inner.log() =~= log0 + inner.news(old(inner)));
                    }
                },
            }
        },
        WatchEvent::Restarted(pods) => {
            let ghost listed = pods@;
            let (images, index) = to_state(pods);
            inner.reset(images, index);
            proof {
                let e = EventView::<Seq<char>, PodRefView, ()>::Restart(indexed(listed).0);
                assert(inner.news(old(inner)) =~= seq![e]);
                assert(inner.log() =~= log0 + inner.news(old(inner)));
                crate::hub::lemma_deliver_push(old(inner).listeners(), Seq::empty(), e);
                assert(Seq::empty().push(e) =~= seq![e]);
            }
        },
    }
}

/// The pods of `owners` that live in namespace `ns`.
pub open spec fn in_namespace(owners: Set<PodRefView>, ns: Seq<char>) -> Set<PodRefView> {
    Set::new(|o: PodRefView| owners.contains(o) && o.namespace == ns)
}

/// The images in use in namespace `ns`, each with its pods of that
/// namespace.
pub open spec fn namespaced(images: PodImages, ns: Seq<char>) -> Map<Seq<char>, Set<PodRefView>> {
    Map::new(
        |k: Seq<char>|
            images.contains_key(k) && in_namespace(images[k].owners, ns) != Set::<PodRefView>::empty(),
        |k: Seq<char>| in_namespace(images[k].owners, ns),
    )
}

/// The pods of `owners` that live in `namespace`.
fn select(owners: &ItemSet<PodRef>, namespace: &String) -> (r: ItemSet<PodRef>)
    ensures
        r@ == in_namespace(owners@, namespace@),
{
    let mut chosen = ItemSet::new();
    let n = owners.len();
    let ghost ord = owners.order();
    let mut i: usize = 0;
    proof {
        assert(chosen@ =~= Set::new(
            |o: PodRefView| ord.take(0).contains(o) && o.namespace == namespace@,
        ));
    }
    while i < n
        invariant
            i <= n,
            n == ord.len(),
            ord == owners.order(),
            ord.to_set() == owners@,
            chosen@ == Set::new(
                |o: PodRefView| ord.take(i as int).contains(o) && o.namespace == namespace@,
            ),
        decreases n - i,
    {
        let owner = owners.item_at(i);
        if owner.namespace == *namespace {
            let _ = chosen.insert(owner.duplicate());
        }
        proof {
            let done = ord.take(i as int);
            let next = ord.take(i as int + 1);
            assert(next =~= done.push(owner@));
            assert forall|o: PodRefView|
                chosen@.contains(o) <==> next.contains(o) && o.namespace == namespace@ by {
                if done.contains(o) {
                    let x = choose|x: int| 0 <= x < done.len() && done[x] == o;
                    assert(next[x] == o);
                }
                if next.contains(o) {
                    let x = choose|x: int| 0 <= x < next.len() && next[x] == o;
                    if x < i {
                        assert(done[x] == o);
                    }
                }
                assert(next[i as int] == owner@);
            }
            assert(chosen@ =~= Set::new(
                |o: PodRefView| next.contains(o) && o.namespace == namespace@,
            ));
        }
        i += 1;
    }
    proof {
        assert(ord.take(n as int) =~= ord);
        assert forall|o: PodRefView| ord.contains(o) <==> owners@.contains(o) by {
            assert(ord.to_set().contains(o) <==> owners@.contains(o));
        }
        assert(chosen@ =~= in_namespace(owners@, namespace@));
    }
    chosen
}

/// get the containers for a namespace
pub fn get_containers_ns(
    state: &ItemMap<ImageRef, State<PodRef, ()>>,
    namespace: &str,
) -> (r: ItemMap<ImageRef, ImageState>)
    ensures
        r@ == namespaced(state@, namespace@),
{
    let namespace = namespace.to_owned();
    let ghost ns = namespace@;
    let mut images: ItemMap<ImageRef, ImageState> = ItemMap::new();
    let n = state.len();
    let ghost ord = state.order();
    let mut i: usize = 0;
    while i < n
        invariant
            i <= n,
            n == ord.len(),
            ord == state.order(),
            state@.dom() == ord.to_set(),
            ns == namespace@,
            forall|k: Seq<char>|
                #![trigger images@.contains_key(k)]
                images@.contains_key(k) <==> ord.take(i as int).contains(k) && in_namespace(
                    state@[k].owners,
                    ns,
                ) != Set::<PodRefView>::empty(),
            forall|k: Seq<char>| #[trigger]
                images@.contains_key(k) ==> images@[k] == in_namespace(state@[k].owners, ns),
        decreases n - i,
    {
        let key = state.key_at(i);
        let entry = state.value_at(i);
        let ghost before = images@;
        let pods = select(&entry.owners, &namespace);
        if !pods.is_empty() {
            images.insert(key.duplicate(), ImageState { pods });
        }
        proof {
            let done = ord.take(i as int);
            let next = ord.take(i as int + 1);
            assert(next =~= done.push(key@));
            assert(next[i as int] == key@);
            assert forall|k: Seq<char>|
                #![trigger images@.contains_key(k)]
                images@.contains_key(k) <==> next.contains(k) && in_namespace(state@[k].owners, ns)
                    != Set::<PodRefView>::empty() by {
                assert(before.contains_key(k) <==> done.contains(k) && in_namespace(
                    state@[k].owners,
                    ns,
                ) != Set::<PodRefView>::empty());
                if done.contains(k) {
                    let x = choose|x: int| 0 <= x < done.len() && done[x] == k;
                    assert(next[x] == k);
                }
                if next.contains(k) && k != key@ {
                    let x = choose|x: int| 0 <= x < next.len() && next[x] == k;
                    assert(done[x] == k);
                }
            }
            assert forall|k: Seq<char>| #[trigger] images@.contains_key(k) implies images@[k]
                == in_namespace(state@[k].owners, ns) by {
                if k != key@ {
                    assert(before.contains_key(k));
                }
            }
        }
        i += 1;
    }
    proof {
        assert(ord.take(n as int) =~= ord);
        assert forall|k: Seq<char>| images@.contains_key(k) <==> namespaced(state@, ns).contains_key(
            k,
        ) by {
            assert(ord.to_set().contains(k) <==> state@.dom().contains(k));
        }
        assert(images@ =~= namespaced(state@, ns));
    }
    images
}

/// Whether some pod of namespace `ns` uses some image of `images`.
pub open spec fn namespace_in_use(images: PodImages, ns: Seq<char>) -> bool {
    exists|k: Seq<char>, o: PodRefView|
        images.contains_key(k) && #[trigger] images[k].owners.contains(o) && o.namespace == ns
}

/// The images in use, by namespace: every namespace in which a pod uses
/// an image, with the images in use there.
pub open spec fn by_namespace(images: PodImages) -> Map<Seq<char>, Map<Seq<char>, Set<PodRefView>>> {
    Map::new(|ns: Seq<char>| namespace_in_use(images, ns), |ns: Seq<char>| namespaced(images, ns))
}

/// The images in use, by namespace.
pub fn get_containers_all(state: &ItemMap<ImageRef, State<PodRef, ()>>) -> (r: ItemMap<
    String,
    ItemMap<ImageRef, ImageState>,
>)
    ensures
        r@ == by_namespace(state@),
{
    let mut all: ItemMap<String, ItemMap<ImageRef, ImageState>> = ItemMap::new();
    let n = state.len();
    let ghost ord = state.order();
    let mut i: usize = 0;
    while i < n
        invariant
            i <= n,
            n == ord.len(),
            ord == state.order(),
            state@.dom() == ord.to_set(),
            forall|ns: Seq<char>| #[trigger]
                all@.contains_key(ns) ==> namespace_in_use(state@, ns) && all@[ns] == namespaced(
                    state@,
                    ns,
                ),
            forall|k: Seq<char>, o: PodRefView|
                ord.take(i as int).contains(k) && #[trigger] state@[k].owners.contains(o)
                    ==> all@.contains_key(o.namespace),
        decreases n - i,
    {
        let key = state.key_at(i);
        let entry = state.value_at(i);
        let m = entry.owners.len();
        let ghost owners = entry.owners.order();
        let mut j: usize = 0;
        while j < m
            invariant
                j <= m,
                m == owners.len(),
                owners == entry.owners.order(),
                owners.to_set() == entry.owners@,
                state@.contains_key(key@),
                entry@ == state@[key@],
                forall|ns: Seq<char>| #[trigger]
                    all@.contains_key(ns) ==> namespace_in_use(state@, ns) && all@[ns]
                        == namespaced(state@, ns),
                forall|k: Seq<char>, o: PodRefView|
                    ord.take(i as int).contains(k) && #[trigger] state@[k].owners.contains(o)
                        ==> all@.contains_key(o.namespace),
                forall|o: PodRefView| #[trigger]
                    owners.take(j as int).contains(o) ==> all@.contains_key(o.namespace),
            decreases m - j,
        {
            let owner = entry.owners.item_at(j);
            let ghost before = all@;
            if !all.contains_key(&owner.namespace) {
                let images = get_containers_ns(state, owner.namespace.as_str());
                proof {
                    assert(state@[key@].owners.contains(owner@));
                    assert(namespace_in_use(state@, owner@.namespace));
                }
                all.insert(owner.namespace.clone(), images);
            }
            proof {
                let done = owners.take(j as int);
                let next = owners.take(j as int + 1);
                assert(next =~= done.push(owner@));
                assert forall|o: PodRefView| #[trigger] next.contains(o) implies all@.contains_key(
                    o.namespace,
                ) by {
                    let x = choose|x: int| 0 <= x < next.len() && next[x] == o;
                    if x < j {
                        assert(done[x] == o);
                        assert(done.contains(o));
                        assert(before.contains_key(o.namespace));
                    }
                }
                assert forall|k: Seq<char>, o: PodRefView|
                    ord.take(i as int).contains(k) && #[trigger] state@[k].owners.contains(
                        o,
                    ) implies all@.contains_key(o.namespace) by {
                    assert(before.contains_key(o.namespace));
                }
            }
            j += 1;
        }
        proof {
            let done = ord.take(i as int);
            let next = ord.take(i as int + 1);
            assert(next =~= done.push(key@));
            assert(owners.take(m as int) =~= owners);
            assert forall|k: Seq<char>, o: PodRefView|
                next.contains(k) && #[trigger] state@[k].owners.contains(o) implies all@.contains_key(
                o.namespace,
            ) by {
                let x = choose|x: int| 0 <= x < next.len() && next[x] == k;
                if x < i {
                    assert(done[x] == k);
                    assert(done.contains(k));
                } else {
                    assert(owners.to_set().contains(o));
                    assert(owners.contains(o));
                }
            }
        }
        i += 1;
    }
    proof {
        assert(ord.take(n as int) =~= ord);
        assert forall|ns: Seq<char>| all@.contains_key(ns) <==> namespace_in_use(state@, ns) by {
            if namespace_in_use(state@, ns) {
                let (k, o) = choose|k: Seq<char>, o: PodRefView|
                    state@.contains_key(k) && #[trigger] state@[k].owners.contains(o) && o.namespace
                        == ns;
                assert(state@.dom().contains(k));
                assert(ord.to_set().contains(k));
                assert(ord.contains(k));
            }
        }
        assert(all@ =~= by_namespace(state@));
    }
    all
}

} // verus!
