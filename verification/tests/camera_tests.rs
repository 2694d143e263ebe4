use leo_viz::cameras::{camera_click, CameraClick};

#[test]
fn click_removes_existing_camera() {
    let cams = vec![(3, (0, 1, 2)), (7, (0, 2, 2)), (9, (0, 2, 2))];
    assert_eq!(camera_click(&cams, &[], (0, 2, 2), 9), (CameraClick::Remove(7), 9));
}

#[test]
fn click_on_pending_does_nothing() {
    let cams = vec![(3, (0, 1, 2))];
    assert_eq!(camera_click(&cams, &[(1, 0, 0)], (1, 0, 0), 3), (CameraClick::AlreadyPending, 3));
}

#[test]
fn click_adds_camera_with_next_id() {
    let cams = vec![(3, (0, 1, 2))];
    assert_eq!(camera_click(&cams, &[(1, 0, 0)], (0, 1, 3), 3), (CameraClick::Add(4), 4));
    assert_eq!(camera_click(&[], &[], (0, 0, 0), 0), (CameraClick::Add(1), 1));
}

#[test]
fn existing_camera_wins_over_pending() {
    let cams = vec![(5, (2, 0, 1))];
    assert_eq!(camera_click(&cams, &[(2, 0, 1)], (2, 0, 1), 5), (CameraClick::Remove(5), 5));
}
