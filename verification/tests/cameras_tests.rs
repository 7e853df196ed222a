use bezy::cameras::{toggle_camera_controls, CameraKeys, PanCamSwitches};

fn keys(press: bool, release: bool, t: bool) -> CameraKeys {
    CameraKeys { space_just_pressed: press, space_just_released: release, t_just_pressed: t }
}

#[test]
fn cameras_space_enables_and_disables_panning() {
    let mut cams = vec![PanCamSwitches { enabled: false, zoom_to_cursor: true }];
    toggle_camera_controls(&mut cams, keys(true, false, false));
    assert_eq!(cams[0], PanCamSwitches { enabled: true, zoom_to_cursor: true });
    toggle_camera_controls(&mut cams, keys(false, false, false));
    assert!(cams[0].enabled);
    toggle_camera_controls(&mut cams, keys(false, true, false));
    assert!(!cams[0].enabled);
    toggle_camera_controls(&mut cams, keys(true, true, false));
    assert!(!cams[0].enabled);
}

#[test]
fn cameras_t_toggles_zoom_on_every_camera() {
    let mut cams = vec![
        PanCamSwitches { enabled: false, zoom_to_cursor: true },
        PanCamSwitches { enabled: true, zoom_to_cursor: false },
    ];
    toggle_camera_controls(&mut cams, keys(false, false, true));
    assert_eq!(cams[0], PanCamSwitches { enabled: false, zoom_to_cursor: false });
    assert_eq!(cams[1], PanCamSwitches { enabled: true, zoom_to_cursor: true });
    toggle_camera_controls(&mut cams, keys(false, false, true));
    assert!(cams[0].zoom_to_cursor && !cams[1].zoom_to_cursor);
}
