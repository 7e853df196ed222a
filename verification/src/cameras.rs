//! Keyboard control of the design canvas camera: holding the space bar pans,
//! `T` toggles zooming towards the cursor.
use vstd::prelude::*;

verus! {

/// The switches of a panning camera that the keyboard drives.
#[derive(Clone, Copy, Debug, PartialEq, Eq, Structural)]
pub struct PanCamSwitches {
    /// Whether dragging pans the camera
    pub enabled: bool,
    /// Whether zooming centres on the cursor
    pub zoom_to_cursor: bool,
}

/// The key changes of one frame that the camera reacts to.
#[derive(Clone, Copy, Debug, PartialEq, Eq, Structural)]
pub struct CameraKeys {
    pub space_just_pressed: bool,
    pub space_just_released: bool,
    pub t_just_pressed: bool,
}

/// A camera's switches after a frame with `keys`: pressing space enables
/// panning, releasing it disables it (a release wins when both come in one
/// frame), and `T` flips zoom-to-cursor.
pub open spec fn spec_camera_after(c: PanCamSwitches, keys: CameraKeys) -> PanCamSwitches {
    PanCamSwitches {
        enabled: if keys.space_just_released {
            false
        } else if keys.space_just_pressed {
            true
        } else {
            c.enabled
        },
        zoom_to_cursor: if keys.t_just_pressed {
            !c.zoom_to_cursor
        } else {
            c.zoom_to_cursor
        },
    }
}

/// Apply one frame's keys to every panning camera.
pub fn toggle_camera_controls(cameras: &mut Vec<PanCamSwitches>, keys: CameraKeys)
    ensures
        final(cameras)@.len() == old(cameras)@.len(),
        forall|i: int|
            0 <= i < old(cameras)@.len() ==> #[trigger] final(cameras)@[i] == spec_camera_after(
                old(cameras)@[i],
                keys,
            ),
{
    let n = cameras.len();
    let mut i: usize = 0;
    while i < n
        invariant
            n == old(cameras)@.len(),
            cameras@.len() == n,
            0 <= i <= n,
            forall|k: int|
                0 <= k < i ==> #[trigger] cameras@[k] == spec_camera_after(old(cameras)@[k], keys),
            forall|k: int| i <= k < n ==> #[trigger] cameras@[k] == old(cameras)@[k],
        decreases n - i,
    {
        let mut c = cameras[i];
        if keys.space_just_pressed {
            c.enabled = true;
        }
        if keys.space_just_released {
            c.enabled = false;
        }
        if keys.t_just_pressed {
            c.zoom_to_cursor = !c.zoom_to_cursor;
        }
        cameras.set(i, c);
        i = i + 1;
    }
}

/// Two presses of `T` (and no space key) leave zoom-to-cursor as it was.
pub proof fn lemma_t_twice_restores(c: PanCamSwitches)
    ensures
        ({
            let keys = CameraKeys {
                space_just_pressed: false,
                space_just_released: false,
                t_just_pressed: true,
            };
            spec_camera_after(spec_camera_after(c, keys), keys) == c
        }),
{
}

} // verus!
