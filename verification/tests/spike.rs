use rgis_basemap::dev_ui::{automated, button, label, track, WidgetKind, WidgetRole};
use rgis_basemap::spike::{
    picture_bytes, setup_image, FramesUntilExit, IMAGE_HEIGHT, IMAGE_WIDTH,
};

const BYTES: usize = 1024 * 1024 * 4;

#[test]
fn exits_after_three_frames() {
    let mut frames = FramesUntilExit(3);
    assert!(!frames.exit_after_a_few_frames());
    assert!(!frames.exit_after_a_few_frames());
    assert!(!frames.exit_after_a_few_frames());
    assert!(frames.exit_after_a_few_frames());
    assert!(frames.exit_after_a_few_frames());
    assert_eq!(frames.0, 0);
}

#[test]
fn picture_needs_enough_bytes() {
    assert_eq!(picture_bytes(vec![5; BYTES]), Some(vec![5; BYTES]));
    let mut longer = vec![5; BYTES];
    longer.extend([6, 7, 8]);
    assert_eq!(picture_bytes(longer), Some(vec![5; BYTES]));
    assert_eq!(picture_bytes(vec![5; BYTES - 1]), None);
    assert_eq!(picture_bytes(Vec::new()), None);
}

#[test]
fn image_has_the_rendered_size() {
    let image = setup_image(vec![8; BYTES]);
    assert_eq!(image.texture_descriptor.size.width, IMAGE_WIDTH);
    assert_eq!(image.texture_descriptor.size.height, IMAGE_HEIGHT);
    assert_eq!(image.data, Some(vec![8; BYTES]));
}

#[test]
fn automation_is_native_and_opt_in() {
    assert!(automated(true, false));
    assert!(!automated(true, true));
    assert!(!automated(false, false));
    assert!(!automated(false, true));
}

#[test]
fn widgets_are_registered_under_their_id() {
    let save = button(true, "file.save", "Save");
    assert!(matches!(save.kind, WidgetKind::Button));
    assert_eq!(save.text, "Save");
    assert_eq!(save.register_as, Some("file.save".to_string()));
    let plain = button(false, "file.save", "Save");
    assert_eq!(plain.text, "Save");
    assert_eq!(plain.register_as, None);
    let title = label(true, "title", String::from("Layers"));
    assert!(matches!(title.kind, WidgetKind::Label));
    assert_eq!(title.text, "Layers");
    assert_eq!(title.register_as, Some("title".to_string()));
    assert_eq!(label(false, "title", 7).register_as, None);
}

#[test]
fn painted_regions_are_tracked_with_their_label() {
    let entry = track(true, "map", "Map canvas").unwrap();
    assert_eq!(entry.id, "map");
    assert!(matches!(entry.role, WidgetRole::Unknown));
    assert_eq!(entry.label, Some("Map canvas".to_string()));
    assert!(entry.visible);
    assert!(track(false, "map", "Map canvas").is_none());
}
