//! Which root views the camera driver renders, and which windows no camera
//! covered in a frame.
//!
//! Entities are given by their 64-bit ids. The driver visits the root views
//! one by one (auxiliary views first, then the cameras in their sorted
//! order); rendering a view may change the world, so each view is decided
//! from the world as it stands when its turn comes.

use vstd::prelude::*;

verus! {

/// What a camera renders to, as far as the driver cares.
#[derive(Clone, Copy, Debug, PartialEq, Eq)]
pub enum CameraTarget {
    /// No target, or a target that is not a window.
    NotWindow,
    /// A window, with the physical size of its extracted state, if the window
    /// was extracted this frame.
    Window { window: u64, physical_size: Option<(u32, u32)> },
}

/// A root view at its turn.
#[derive(Clone, Copy, Debug, PartialEq, Eq)]
pub enum RootViewState {
    /// A camera view; `target` is `None` when the camera has not been
    /// extracted.
    Camera { entity: u64, target: Option<CameraTarget> },
    /// A non-camera root view; `registered` tells whether the entity still
    /// carries its root-view marker.
    Auxiliary { entity: u64, registered: bool },
}

/// The entity whose schedule the driver runs for `view`, if any.
pub open spec fn view_to_run(view: RootViewState) -> Option<u64> {
    match view {
        RootViewState::Camera { entity, target } => match target {
            None => None,
            Some(CameraTarget::NotWindow) => Some(entity),
            Some(CameraTarget::Window { window, physical_size }) => match physical_size {
                Some((w, h)) => if w > 0 && h > 0 { Some(entity) } else { None },
                None => None,
            },
        },
        RootViewState::Auxiliary { entity, registered } => if registered { Some(entity) } else { None },
    }
}

/// The window that `view` covers, if any: the window of a camera whose
/// window target has a non-zero physical size.
pub open spec fn covered_window(view: RootViewState) -> Option<u64> {
    match view {
        RootViewState::Camera { target: Some(CameraTarget::Window { window, physical_size: Some((w, h)) }), .. } =>
            if w > 0 && h > 0 { Some(window) } else { None },
        _ => None,
    }
}

/// `v` holds no entity twice.
pub open spec fn no_duplicates(v: Seq<u64>) -> bool {
    forall|i: int, j: int| 0 <= i < j < v.len() ==> v[i] != v[j]
}

/// Whether `entities` holds `entity`.
pub fn contains_entity(entities: &Vec<u64>, entity: u64) -> (found: bool)
    ensures
        found == entities@.contains(entity),
{
    let mut i: usize = 0;
    while i < entities.len()
        invariant
            i <= entities.len(),
            forall|k: int| 0 <= k < i ==> entities@[k] != entity,
        decreases entities.len() - i,
    {
        if entities[i] == entity {
            assert(entities@[i as int] == entity);
            return true;
        }
        i = i + 1;
    }
    false
}

/// Decides one root view's turn: returns the entity whose schedule to run,
/// if any, and records in `camera_windows` the window that the view covers.
///
/// A camera that was not extracted, or whose window target was not extracted
/// or has a zero width or height, is skipped; so is an auxiliary view that
/// lost its marker.
pub fn camera_driver_step(camera_windows: &mut Vec<u64>, view: RootViewState) -> (run: Option<u64>)
    requires
        no_duplicates(old(camera_windows)@),
    ensures
        run == view_to_run(view),
        no_duplicates(final(camera_windows)@),
        covered_window(view) is None ==> final(camera_windows)@ == old(camera_windows)@,
        covered_window(view) matches Some(w) ==> final(camera_windows)@.to_set() == old(camera_windows)@.to_set().insert(w),
{
    match view {
        RootViewState::Camera { entity, target } => match target {
            None => None,
            Some(CameraTarget::NotWindow) => Some(entity),
            Some(CameraTarget::Window { window, physical_size }) => {
                let shown = match physical_size {
                    Some((w, h)) => w > 0 && h > 0,
                    None => false,
                };
                if shown {
                    let ghost before = camera_windows@;
                    if !contains_entity(camera_windows, window) {
                        camera_windows.push(window);
                        assert(camera_windows@.to_set() =~= before.to_set().insert(window)) by {
                            assert forall|e: u64| camera_windows@.contains(e) <==> before.contains(e) || e == window by {
                                if camera_windows@.contains(e) {
                                    let k = choose|k: int| 0 <= k < camera_windows@.len() && camera_windows@[k] == e;
                                    if k < before.len() {
                                        assert(before[k] == e);
                                    }
                                }
                                if before.contains(e) {
                                    let k = choose|k: int| 0 <= k < before.len() && before[k] == e;
                                    assert(camera_windows@[k] == e);
                                }
                                if e == window {
                                    assert(camera_windows@[before.len() as int] == e);
                                }
                            }
                        }
                    } else {
                        assert(camera_windows@.to_set() =~= before.to_set().insert(window));
                    }
                    Some(entity)
                } else {
                    None
                }
            },
        },
        RootViewState::Auxiliary { entity, registered } => if registered {
            Some(entity)
        } else {
            None
        },
    }
}

/// The windows, in the order given, that have a swap-chain texture and that
/// no camera covered.
pub open spec fn uncovered_windows(camera_windows: Seq<u64>, windows: Seq<(u64, bool)>) -> Seq<u64>
    decreases windows.len(),
{
    if windows.len() == 0 {
        Seq::empty()
    } else {
        let last = windows.last();
        let rest = uncovered_windows(camera_windows, windows.drop_last());
        if !camera_windows.contains(last.0) && last.1 {
            rest.push(last.0)
        } else {
            rest
        }
    }
}

/// The windows that still need clearing after the cameras rendered: among
/// `windows` (each with whether it has a swap-chain texture), in order,
/// those that have a texture and are not in `camera_windows`.
pub fn windows_to_clear(camera_windows: &Vec<u64>, windows: &Vec<(u64, bool)>) -> (to_clear: Vec<u64>)
    ensures
        to_clear@ == uncovered_windows(camera_windows@, windows@),
{
    let mut to_clear: Vec<u64> = Vec::new();
    let mut i: usize = 0;
    while i < windows.len()
        invariant
            i <= windows.len(),
            to_clear@ == uncovered_windows(camera_windows@, windows@.take(i as int)),
        decreases windows.len() - i,
    {
        let (window, has_texture) = windows[i];
        assert(windows@.take(i + 1).drop_last() =~= windows@.take(i as int));
        if !contains_entity(camera_windows, window) && has_texture {
            to_clear.push(window);
        }
        i = i + 1;
    }
    assert(windows@.take(windows.len() as int) =~= windows@);
    to_clear
}

/// Law: a window is cleared only when it was listed with a swap-chain
/// texture and no camera covered it; so a window that a rendered camera
/// covered is never cleared.
pub proof fn lemma_cleared_windows_are_uncovered(camera_windows: Seq<u64>, windows: Seq<(u64, bool)>)
    ensures
        forall|k: int| 0 <= k < uncovered_windows(camera_windows, windows).len() ==> {
            let w = #[trigger] uncovered_windows(camera_windows, windows)[k];
            &&& !camera_windows.contains(w)
            &&& windows.contains((w, true))
        },
    decreases windows.len(),
{
    if windows.len() > 0 {
        let rest = windows.drop_last();
        lemma_cleared_windows_are_uncovered(camera_windows, rest);
        let r = uncovered_windows(camera_windows, rest);
        assert forall|k: int| 0 <= k < uncovered_windows(camera_windows, windows).len() implies {
            let w = #[trigger] uncovered_windows(camera_windows, windows)[k];
            &&& !camera_windows.contains(w)
            &&& windows.contains((w, true))
        } by {
            let w = uncovered_windows(camera_windows, windows)[k];
            if k < r.len() {
                assert(w == r[k]);
                let i = choose|i: int| 0 <= i < rest.len() && rest[i] == (w, true);
                assert(windows[i] == (w, true));
            } else {
                assert(windows[windows.len() - 1] == (w, true));
            }
        }
    }
}

/// Law: every window listed with a swap-chain texture that no camera
/// covered is cleared, and the cleared windows come in the order in which
/// they are listed.
pub proof fn lemma_uncovered_windows_are_cleared_in_order(camera_windows: Seq<u64>, windows: Seq<(u64, bool)>)
    ensures
        forall|i: int| 0 <= i < windows.len() && windows[i].1 && !camera_windows.contains(windows[i].0)
            ==> uncovered_windows(camera_windows, windows).contains(#[trigger] windows[i].0),
        forall|k1: int, k2: int|
            #![trigger uncovered_windows(camera_windows, windows)[k1], uncovered_windows(camera_windows, windows)[k2]]
            0 <= k1 < k2 < uncovered_windows(camera_windows, windows).len() ==> exists|i1: int, i2: int|
                #![trigger windows[i1], windows[i2]]
                0 <= i1 < i2 < windows.len()
                    && windows[i1] == (uncovered_windows(camera_windows, windows)[k1], true)
                    && windows[i2] == (uncovered_windows(camera_windows, windows)[k2], true),
    decreases windows.len(),
{
    lemma_cleared_windows_are_uncovered(camera_windows, windows);
    if windows.len() > 0 {
        let rest = windows.drop_last();
        lemma_uncovered_windows_are_cleared_in_order(camera_windows, rest);
        lemma_cleared_windows_are_uncovered(camera_windows, rest);
        let r = uncovered_windows(camera_windows, rest);
        let full = uncovered_windows(camera_windows, windows);
        let last = windows.last();
        assert forall|i: int| 0 <= i < windows.len() && windows[i].1 && !camera_windows.contains(windows[i].0)
            implies full.contains(#[trigger] windows[i].0) by {
            if i < rest.len() {
                assert(rest[i] == windows[i]);
                assert(r.contains(rest[i].0));
                let k = choose|k: int| 0 <= k < r.len() && r[k] == rest[i].0;
                assert(full[k] == r[k]);
            } else {
                assert(full[full.len() - 1] == last.0);
            }
        }
        assert forall|k1: int, k2: int| #![trigger full[k1], full[k2]] 0 <= k1 < k2 < full.len() implies exists|i1: int, i2: int|
            #![trigger windows[i1], windows[i2]]
            0 <= i1 < i2 < windows.len()
                && windows[i1] == (full[k1], true)
                && windows[i2] == (full[k2], true) by {
            if k2 < r.len() {
                assert(full[k1] == r[k1] && full[k2] == r[k2]);
                let (i1, i2) = choose|i1: int, i2: int| #![trigger rest[i1], rest[i2]] 0 <= i1 < i2 < rest.len()
                    && rest[i1] == (r[k1], true) && rest[i2] == (r[k2], true);
                assert(windows[i1] == rest[i1] && windows[i2] == rest[i2]);
            } else {
                assert(full[k1] == r[k1]);
                assert(full[k2] == last.0 && last.1);
                let w = r[k1];
                assert(rest.contains((w, true)));
                let i1 = choose|i: int| 0 <= i < rest.len() && rest[i] == (w, true);
                assert(windows[i1] == rest[i1]);
                assert(windows[windows.len() - 1] == (full[k2], true));
            }
        }
    }
}

/// Law: a camera whose window target was extracted with a non-zero width
/// and a non-zero height is run and covers its window, whatever the ratio of
/// the sides; one whose window has a zero side, or was not extracted, is
/// neither run nor covers anything. A camera without a window target is
/// run and covers nothing.
pub proof fn lemma_window_cameras(entity: u64, window: u64, w: u32, h: u32)
    ensures
        w > 0 && h > 0 ==> view_to_run(RootViewState::Camera {
            entity,
            target: Some(CameraTarget::Window { window, physical_size: Some((w, h)) }),
        }) == Some(entity) && covered_window(RootViewState::Camera {
            entity,
            target: Some(CameraTarget::Window { window, physical_size: Some((w, h)) }),
        }) == Some(window),
        w == 0 || h == 0 ==> view_to_run(RootViewState::Camera {
            entity,
            target: Some(CameraTarget::Window { window, physical_size: Some((w, h)) }),
        }) is None && covered_window(RootViewState::Camera {
            entity,
            target: Some(CameraTarget::Window { window, physical_size: Some((w, h)) }),
        }) is None,
        view_to_run(RootViewState::Camera {
            entity,
            target: Some(CameraTarget::Window { window, physical_size: Some((w, h)) }),
        }) == view_to_run(RootViewState::Camera {
            entity,
            target: Some(CameraTarget::Window { window, physical_size: Some((h, w)) }),
        }),
        view_to_run(RootViewState::Camera { entity, target: Some(CameraTarget::Window { window, physical_size: None }) }) is None,
        covered_window(RootViewState::Camera { entity, target: Some(CameraTarget::Window { window, physical_size: None }) }) is None,
        view_to_run(RootViewState::Camera { entity, target: Some(CameraTarget::NotWindow) }) == Some(entity),
        covered_window(RootViewState::Camera { entity, target: Some(CameraTarget::NotWindow) }) is None,
        view_to_run(RootViewState::Camera { entity, target: None }) is None,
        view_to_run(RootViewState::Auxiliary { entity, registered: true }) == Some(entity),
        view_to_run(RootViewState::Auxiliary { entity, registered: false }) is None,
        covered_window(RootViewState::Auxiliary { entity, registered: true }) is None,
{
}

} // verus!
