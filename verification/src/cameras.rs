use vstd::prelude::*;

verus! {

/// What a click on a satellite does to the satellite cameras.
#[derive(Clone, Copy, Debug, PartialEq, Eq, Structural)]
pub enum CameraClick {
    /// The satellite already has the camera with this id: remove it.
    Remove(usize),
    /// Open a new camera with this id on the satellite.
    Add(usize),
    /// A camera for the satellite is already waiting to open: do nothing.
    AlreadyPending,
}

/// Position of the first camera of `cameras` (pairs of id and satellite key
/// `(constellation, plane, slot)`) on satellite `key`, or `cameras.len()`.
pub open spec fn first_camera(cameras: Seq<(usize, (usize, usize, usize))>, key: (usize, usize, usize)) -> int
    decreases cameras.len(),
{
    if cameras.len() == 0 {
        0
    } else if first_camera(cameras.drop_last(), key) < cameras.len() - 1 {
        first_camera(cameras.drop_last(), key)
    } else if cameras.last().1 == key {
        cameras.len() - 1
    } else {
        cameras.len() as int
    }
}

proof fn lemma_first_camera(cameras: Seq<(usize, (usize, usize, usize))>, key: (usize, usize, usize))
    ensures
        0 <= first_camera(cameras, key) <= cameras.len(),
        first_camera(cameras, key) < cameras.len() ==> cameras[first_camera(cameras, key)].1 == key,
        forall|j: int| 0 <= j < first_camera(cameras, key) ==> (#[trigger] cameras[j]).1 != key,
    decreases cameras.len(),
{
    if cameras.len() > 0 {
        lemma_first_camera(cameras.drop_last(), key);
        assert forall|j: int| 0 <= j < first_camera(cameras, key) implies (#[trigger] cameras[j]).1 != key by {
            if j < cameras.len() - 1 {
                assert(cameras[j] == cameras.drop_last()[j]);
            }
        }
        if first_camera(cameras.drop_last(), key) < cameras.len() - 1 {
            assert(cameras[first_camera(cameras, key)] == cameras.drop_last()[first_camera(cameras, key)]);
        }
    }
}

/// The effect of a click on satellite `key`: when a camera already shows the
/// satellite, the first such camera is removed; else, unless one is pending
/// for it, a camera opens with the next id (`counter + 1`). Returns the
/// action and the new id counter.
pub fn camera_click(
    cameras: &[(usize, (usize, usize, usize))],
    pending: &[(usize, usize, usize)],
    key: (usize, usize, usize),
    counter: usize,
) -> (res: (CameraClick, usize))
    requires
        first_camera(cameras@, key) == cameras@.len() && !pending@.contains(key) ==> counter < usize::MAX,
    ensures
        ({
            let i = first_camera(cameras@, key);
            if i < cameras@.len() {
                res == (CameraClick::Remove(cameras@[i].0), counter)
            } else if pending@.contains(key) {
                res == (CameraClick::AlreadyPending, counter)
            } else {
                res == (CameraClick::Add((counter + 1) as usize), (counter + 1) as usize)
            }
        }),
{
    proof {
        lemma_first_camera(cameras@, key);
    }
    let mut i: usize = 0;
    while i < cameras.len()
        invariant
            i <= cameras@.len(),
            forall|j: int| 0 <= j < i ==> (#[trigger] cameras@[j]).1 != key,
            0 <= first_camera(cameras@, key) <= cameras@.len(),
            first_camera(cameras@, key) < cameras@.len() ==> cameras@[first_camera(cameras@, key)].1 == key,
            forall|j: int| 0 <= j < first_camera(cameras@, key) ==> (#[trigger] cameras@[j]).1 != key,
        decreases cameras@.len() - i,
    {
        let c = cameras[i].1;
        if c.0 == key.0 && c.1 == key.1 && c.2 == key.2 {
            proof {
                assert(cameras@[i as int].1 == key);
                assert(first_camera(cameras@, key) == i);
            }
            return (CameraClick::Remove(cameras[i].0), counter);
        }
        i = i + 1;
    }
    proof {
        if first_camera(cameras@, key) < cameras@.len() {
            assert(cameras@[first_camera(cameras@, key)].1 == key);
        }
        assert(first_camera(cameras@, key) == cameras@.len());
    }
    let mut k: usize = 0;
    while k < pending.len()
        invariant
            k <= pending@.len(),
            forall|j: int| 0 <= j < k ==> pending@[j] != key,
            first_camera(cameras@, key) == cameras@.len(),
            first_camera(cameras@, key) == cameras@.len() && !pending@.contains(key) ==> counter < usize::MAX,
        decreases pending@.len() - k,
    {
        let p = pending[k];
        if p.0 == key.0 && p.1 == key.1 && p.2 == key.2 {
            proof {
                assert(pending@[k as int] == key);
            }
            return (CameraClick::AlreadyPending, counter);
        }
        k = k + 1;
    }
    (CameraClick::Add(counter + 1), counter + 1)
}

} // verus!
