use sprios::errors::SpriosError;
use sprios::scene::{is_number_token, parse_scene, scene_desc, MaterialDesc, SceneItem};

fn args_as_strings(args: &Vec<Vec<u8>>) -> Vec<String> {
    args.iter()
        .map(|a| String::from_utf8(a.clone()).unwrap())
        .collect()
}

#[test]
fn parses_a_full_scene() {
    let text = b"# a small scene\n\
camera 0 0 2 0 0 -1 40 0.5\n\
background 0.5 0.7 1.0\n\
\n\
diffuse 0.9 0.1 0.1\n\
sphere 0 0 -1 0.5\n\
metal 0.7 0.6 0.5 0.1\n\
sphere 1 0 -1 0.5\n"
        .to_vec();
    let items = parse_scene(&text).unwrap();
    assert_eq!(items.len(), 6);
    match &items[0] {
        SceneItem::CameraItem { args } => {
            assert_eq!(
                args_as_strings(args),
                vec!["0", "0", "2", "0", "0", "-1", "40", "0.5"]
            );
        }
        _ => panic!("expected a camera directive"),
    }
    match &items[1] {
        SceneItem::BackgroundItem { args } => {
            assert_eq!(args_as_strings(args), vec!["0.5", "0.7", "1.0"]);
        }
        _ => panic!("expected a background directive"),
    }
    assert!(matches!(&items[2], SceneItem::DiffuseItem { .. }));
    match &items[3] {
        SceneItem::SphereItem { args } => {
            assert_eq!(args_as_strings(args), vec!["0", "0", "-1", "0.5"]);
        }
        _ => panic!("expected a sphere directive"),
    }
    assert!(matches!(&items[4], SceneItem::MetalItem { .. }));
    assert!(matches!(&items[5], SceneItem::SphereItem { .. }));
}

#[test]
fn blank_lines_and_comments_are_skipped() {
    let text = b"\n\n# comment\n   \n".to_vec();
    let items = parse_scene(&text).unwrap();
    assert_eq!(items.len(), 0);
}

#[test]
fn unknown_directive_is_an_error() {
    let text = b"glass 1 2 3\n".to_vec();
    let err = parse_scene(&text).unwrap_err();
    let SpriosError::WorldParseError(msg) = err;
    assert!(msg.contains("glass"));
}

#[test]
fn wrong_arity_is_an_error() {
    let text = b"background 0.5 0.7\n".to_vec();
    let err = parse_scene(&text).unwrap_err();
    let SpriosError::WorldParseError(msg) = err;
    assert!(msg.contains("background"));
    let text = b"sphere 0 0 -1\n".to_vec();
    assert!(parse_scene(&text).is_err());
}

#[test]
fn bad_number_is_an_error() {
    let text = b"background 0.5 x 1.0\n".to_vec();
    let err = parse_scene(&text).unwrap_err();
    let SpriosError::WorldParseError(msg) = err;
    assert!(msg.contains("x"));
}

#[test]
fn number_token_shapes() {
    assert!(is_number_token(&b"0".to_vec()));
    assert!(is_number_token(&b"42".to_vec()));
    assert!(is_number_token(&b"-3".to_vec()));
    assert!(is_number_token(&b"3.5".to_vec()));
    assert!(is_number_token(&b"-100.25".to_vec()));
    assert!(!is_number_token(&b"".to_vec()));
    assert!(!is_number_token(&b"-".to_vec()));
    assert!(!is_number_token(&b"3.".to_vec()));
    assert!(!is_number_token(&b".5".to_vec()));
    assert!(!is_number_token(&b"1.2.3".to_vec()));
    assert!(!is_number_token(&b"1e5".to_vec()));
    assert!(!is_number_token(&b"abc".to_vec()));
}

#[test]
fn current_material_persists_across_spheres() {
    let text = b"diffuse 0.9 0.1 0.1\nsphere 0 0 -1 0.5\nsphere 1 0 -1 0.5\n".to_vec();
    let desc = scene_desc(parse_scene(&text).unwrap());
    assert_eq!(desc.spheres.len(), 2);
    assert_eq!(desc.materials.len(), 1);
    match &desc.materials[0] {
        MaterialDesc::DiffuseDesc { args } => {
            assert_eq!(args_as_strings(args), vec!["0.9", "0.1", "0.1"]);
        }
        _ => panic!("expected the diffuse directive"),
    }
    // the current material stays in force until replaced: both spheres
    // carry the one diffuse
    assert_eq!(desc.spheres[0].material, Some(0));
    assert_eq!(desc.spheres[1].material, Some(0));
}

#[test]
fn later_directive_replaces_the_current_material() {
    let text = b"diffuse 0.9 0.1 0.1\nsphere 0 0 -1 0.5\n\
metal 0.7 0.6 0.5 0.1\nsphere 1 0 -1 0.5\nsphere 2 0 -1 0.5\n"
        .to_vec();
    let desc = scene_desc(parse_scene(&text).unwrap());
    assert_eq!(desc.materials.len(), 2);
    assert_eq!(desc.spheres[0].material, Some(0));
    assert_eq!(desc.spheres[1].material, Some(1));
    assert_eq!(desc.spheres[2].material, Some(1));
    assert!(matches!(&desc.materials[1], MaterialDesc::MetalDesc { .. }));
}

#[test]
fn sphere_before_any_directive_takes_the_default() {
    let text = b"sphere 0 0 -1 0.5\ndiffuse 1 1 1\nsphere 1 0 -1 0.5\n".to_vec();
    let desc = scene_desc(parse_scene(&text).unwrap());
    assert!(desc.spheres[0].material.is_none());
    assert_eq!(desc.spheres[1].material, Some(0));
}

#[test]
fn last_camera_and_background_win() {
    let text = b"camera 0 0 2 0 0 -1 40 0.5\nbackground 0 0 0\n\
camera 1 1 1 0 0 0 90 0\nbackground 0.5 0.7 1.0\nmetal 1 1 1 0\nsphere 0 0 0 1\n"
        .to_vec();
    let desc = scene_desc(parse_scene(&text).unwrap());
    assert_eq!(
        args_as_strings(desc.camera.as_ref().unwrap()),
        vec!["1", "1", "1", "0", "0", "0", "90", "0"]
    );
    assert_eq!(
        args_as_strings(desc.background.as_ref().unwrap()),
        vec!["0.5", "0.7", "1.0"]
    );
    assert_eq!(desc.spheres[0].material, Some(0));
    assert!(matches!(&desc.materials[0], MaterialDesc::MetalDesc { .. }));
}

#[test]
fn scene_without_directives_has_no_camera() {
    let desc = scene_desc(parse_scene(&b"# nothing\n".to_vec()).unwrap());
    assert!(desc.camera.is_none());
    assert!(desc.background.is_none());
    assert!(desc.materials.is_empty());
    assert!(desc.spheres.is_empty());
}

#[test]
fn error_message_is_readable() {
    let e = SpriosError::WorldParseError(String::from("could not parse line"));
    assert_eq!(e.message(), "could not parse line");
}
