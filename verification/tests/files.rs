use std::path::{Component, Path, PathBuf};

use nobg::codec::{can_encode, can_encode_size, decode_input, encode_output, CodecError};
use nobg::inputs::{collect_inputs, has_picture_name, InputFile, PathPart, PathPrefix, Probe};
use nobg::names::{cropped_name, expand_pattern, extension, file_stem};
use nobg::options::{App, Destination, Mode, UsageError};
use nobg::raster::RgbaImage;
use nobg::visible::{crop_to_visible, find_alpha_bounds};

fn transparent(width: u32, height: u32) -> RgbaImage {
    RgbaImage { width, height, data: vec![0; (width * height * 4) as usize] }
}

fn show(picture: &mut RgbaImage, x: u32, y: u32, alpha: u8) {
    let at = ((y * picture.width + x) * 4) as usize;
    picture.data[at] = x as u8;
    picture.data[at + 1] = y as u8;
    picture.data[at + 3] = alpha;
}

#[test]
fn bounds_enclose_the_visible_pixels() {
    let mut picture = transparent(10, 8);
    assert_eq!(find_alpha_bounds(&picture), None);
    show(&mut picture, 3, 5, 10);
    assert_eq!(find_alpha_bounds(&picture), None);
    show(&mut picture, 3, 5, 11);
    assert_eq!(find_alpha_bounds(&picture), Some((3, 5, 3, 5)));
    show(&mut picture, 7, 2, 255);
    assert_eq!(find_alpha_bounds(&picture), Some((3, 2, 7, 5)));
    show(&mut picture, 0, 0, 11);
    show(&mut picture, 9, 7, 11);
    assert_eq!(find_alpha_bounds(&picture), Some((0, 0, 9, 7)));
    assert_eq!(find_alpha_bounds(&transparent(0, 0)), None);
}

#[test]
fn crop_leaves_the_last_column_and_row_out() {
    let mut picture = transparent(6, 6);
    show(&mut picture, 1, 2, 200);
    show(&mut picture, 4, 4, 200);
    let part = crop_to_visible(&picture).unwrap();
    assert_eq!((part.width, part.height), (3, 2));
    assert_eq!(part, picture.crop(1, 2, 3, 2));
    assert_eq!(part.data[..4], [1, 2, 0, 200]);
    assert!(crop_to_visible(&transparent(3, 3)).is_none());
}

#[test]
fn png_input_is_decoded() {
    let data: Vec<u8> = (0..24).collect();
    let source = image::RgbaImage::from_raw(3, 2, data.clone()).unwrap();
    let mut file = std::io::Cursor::new(Vec::new());
    source.write_to(&mut file, image::ImageFormat::Png).unwrap();
    let picture = decode_input(file.into_inner()).unwrap();
    assert_eq!(picture, RgbaImage { width: 3, height: 2, data });
}

#[test]
fn jpeg_input_is_decoded() {
    let source = image::RgbImage::from_pixel(8, 8, image::Rgb([200, 100, 50]));
    let mut file = std::io::Cursor::new(Vec::new());
    source.write_to(&mut file, image::ImageFormat::Jpeg).unwrap();
    let bytes = file.into_inner();
    assert_eq!(bytes[..3], [0xFF, 0xD8, 0xFF]);
    let picture = decode_input(bytes).unwrap();
    assert_eq!((picture.width, picture.height), (8, 8));
    assert!(picture.data.chunks(4).all(|p| p[3] == 255));
    assert!((picture.data[0] as i32 - 200).abs() < 8);
}

#[test]
fn other_input_is_an_error() {
    assert!(matches!(decode_input(vec![1, 2, 3]), Err(CodecError::Decode(_))));
    assert!(matches!(decode_input(vec![]), Err(CodecError::Decode(_))));
    assert!(matches!(decode_input(vec![0xFF, 0xD8, 0xFF]), Err(CodecError::Decode(_))));
    assert!(matches!(decode_input(b"GIF89a".to_vec()), Err(CodecError::Decode(_))));
}

#[test]
fn output_is_a_png_file() {
    let mut picture = transparent(5, 4);
    show(&mut picture, 1, 1, 99);
    show(&mut picture, 3, 3, 99);
    let file = encode_output(&picture, false).unwrap().unwrap();
    assert_eq!(file[..4], [137, 80, 78, 71]);
    assert_eq!(decode_input(file).unwrap(), picture);
    let file = encode_output(&picture, true).unwrap().unwrap();
    assert_eq!(decode_input(file).unwrap(), picture.crop(1, 1, 2, 2));
}

#[test]
fn nothing_visible_gives_no_cropped_output() {
    let picture = transparent(4, 4);
    assert!(encode_output(&picture, true).unwrap().is_none());
    assert!(encode_output(&picture, false).unwrap().is_some());
}

#[test]
fn rows_that_are_too_long_are_told_apart() {
    assert!(can_encode_size(1_073_741_823, 1));
    assert!(!can_encode_size(1_073_741_824, 1));
    assert!(!can_encode_size(u32::MAX, 1));
    assert!(can_encode_size(u32::MAX, 0));
    assert!(can_encode_size(1, u32::MAX));
    let mut picture = transparent(4, 4);
    assert!(can_encode(&picture, false));
    assert!(can_encode(&picture, true));
    show(&mut picture, 2, 2, 99);
    show(&mut picture, 0, 0, 99);
    assert!(can_encode(&picture, true));
}

#[test]
fn picture_without_pixels_cannot_be_encoded() {
    let mut picture = transparent(4, 4);
    show(&mut picture, 2, 2, 99);
    assert!(matches!(encode_output(&picture, true), Err(CodecError::Encode(_))));
    assert!(matches!(encode_output(&transparent(0, 3), false), Err(CodecError::Encode(_))));
}

#[test]
fn names_split_as_paths_do() {
    let names = ["a.jpg", "a", ".a", "a.", "a.b.c", "..b", ".a.b", "x..png", "\u{e9}.png", "...", ".."];
    for name in names {
        let path = Path::new(name);
        let wanted_ext = path.extension().map(|e| e.to_str().unwrap().to_string());
        assert_eq!(extension(name), wanted_ext);
        if name != ".." {
            assert_eq!(file_stem(name), path.file_stem().unwrap().to_str().unwrap());
        }
    }
    assert_eq!(file_stem(".."), "..");
}

#[test]
fn names_are_made_of_stem_and_extension() {
    for name in ["a.jpg", "a.b.c", "a.", "plain", ".hidden", "..", "..b"] {
        match extension(name) {
            Some(ext) => {
                assert_eq!(format!("{}.{}", file_stem(name), ext), name);
                assert!(!ext.contains('.'));
            }
            None => assert_eq!(file_stem(name), name),
        }
    }
}

#[test]
fn leading_placeholders_come_first() {
    for rest in ["", ".png", "{ext}", "{stem}", "m}{"] {
        let tail = expand_pattern(rest, "photo", "jpg");
        assert_eq!(expand_pattern(&format!("{{stem}}{}", rest), "photo", "jpg"), format!("photo{}", tail));
        assert_eq!(expand_pattern(&format!("{{ext}}{}", rest), "photo", "jpg"), format!("jpg{}", tail));
    }
}

#[test]
fn patterns_are_filled_in() {
    assert_eq!(expand_pattern("{stem}.nbg.png", "photo", "jpg"), "photo.nbg.png");
    assert_eq!(expand_pattern("{stem}_out.{ext}", "photo", "jpg"), "photo_out.jpg");
    assert_eq!(expand_pattern("{stem}{stem}", "ab", "x"), "abab");
    assert_eq!(expand_pattern("fixed.png", "photo", "jpg"), "fixed.png");
    assert_eq!(expand_pattern("{{stem}}{st", "p", "x"), "{p}{st");
    assert_eq!(expand_pattern("{stem}", "{ext}", "jpg"), "{ext}");
    assert_eq!(expand_pattern("", "p", "x"), "");
    assert_eq!(expand_pattern("\u{fc}{ext}", "p", "\u{df}"), "\u{fc}\u{df}");
}

#[test]
fn cropped_names_match_path_operations() {
    for stem in ["photo", "photo.nbg", ".hidden", "a.b.c"] {
        let mut path = PathBuf::from("dir/x.png");
        path.set_file_name(format!("{}_cropped", stem));
        path.set_extension("png");
        assert_eq!(cropped_name(stem), path.file_name().unwrap().to_str().unwrap());
    }
    assert_eq!(cropped_name("photo"), "photo_cropped.png");
    assert_eq!(cropped_name("photo.nbg"), "photo.png");
}

fn options(inputs: &[&str]) -> App {
    App {
        inputs: inputs.iter().map(|s| s.to_string()).collect(),
        output_file: None,
        pattern: "{stem}.nbg.png".to_string(),
        output_dir: None,
        verbose: false,
        crop: false,
        stdin: false,
        stdout: false,
        http: false,
        address: "0.0.0.0".to_string(),
        port: 9876,
        model: "assets/medium.onnx".to_string(),
        tile: false,
    }
}

#[test]
fn faulty_options_are_refused() {
    assert_eq!(options(&[]).check(), Ok(()));
    let mut app = options(&["a.png"]);
    app.stdin = true;
    assert_eq!(app.check(), Err(UsageError::StdinWithInputs));
    let mut app = options(&["a.png"]);
    app.output_file = Some("b.png".to_string());
    assert_eq!(app.check(), Ok(()));
    app.stdout = true;
    assert_eq!(app.check(), Err(UsageError::StdoutWithOutputFile));
    let mut app = options(&["a.png", "b.png"]);
    app.output_file = Some("c.png".to_string());
    assert_eq!(app.check(), Err(UsageError::OutputFileNeedsOneInput));
    app.inputs.clear();
    assert_eq!(app.check(), Err(UsageError::OutputFileNeedsOneInput));
}

#[test]
fn mode_follows_the_flags() {
    let mut app = options(&[]);
    assert_eq!(app.mode(), Mode::Batch);
    app.stdin = true;
    assert_eq!(app.mode(), Mode::Stdin);
    app.http = true;
    assert_eq!(app.mode(), Mode::Http);
}

fn in_directory(destination: Destination) -> (String, String) {
    match destination {
        Destination::Directory(directory, name) => (directory, name),
        Destination::File(path) => panic!("{}", path),
    }
}

#[test]
fn results_go_where_the_options_say() {
    let app = options(&["a.jpg"]);
    let (directory, name) = in_directory(app.destination("a.jpg", false));
    assert_eq!((directory.as_str(), name.as_str()), (".", "a.nbg.png"));
    let (directory, _) = in_directory(app.destination("a.jpg", true));
    assert_eq!(directory, "output_images");
    let (directory, _) = in_directory(options(&[]).destination("a.jpg", false));
    assert_eq!(directory, "output_images");
    let mut app = options(&["pics"]);
    app.output_dir = Some("out".to_string());
    app.pattern = "{stem}.{ext}".to_string();
    let (directory, name) = in_directory(app.destination("noext", true));
    assert_eq!((directory.as_str(), name.as_str()), ("out", "noext."));
    app.output_file = Some("one.png".to_string());
    match app.destination("a.jpg", false) {
        Destination::File(path) => assert_eq!(path, "one.png"),
        Destination::Directory(_, name) => panic!("{}", name),
    }
}

fn input(id: usize, path: &str) -> InputFile {
    let path = Path::new(path);
    let part = |c: Component| match c {
        Component::Prefix(p) => panic!("{:?}", p),
        Component::RootDir => PathPart::RootDir,
        Component::CurDir => PathPart::CurDir,
        Component::ParentDir => PathPart::ParentDir,
        Component::Normal(n) => PathPart::Normal(n.as_encoded_bytes().to_vec()),
    };
    InputFile {
        id,
        name: path.file_name().map_or(String::new(), |n| n.to_str().unwrap().to_string()),
        parts: path.components().map(part).collect(),
    }
}

#[test]
fn pictures_are_known_by_their_extension() {
    assert!(has_picture_name("a.jpg"));
    assert!(has_picture_name("a.b.png"));
    assert!(!has_picture_name("a.JPG"));
    assert!(!has_picture_name("a.jpeg"));
    assert!(!has_picture_name(".png"));
    assert!(!has_picture_name("png"));
}

#[test]
fn without_inputs_the_default_directory_is_listed() {
    let entries = vec![input(0, "images/z.png"), input(1, "images/a.txt"), input(2, "images/b.jpg")];
    assert_eq!(collect_inputs(&vec![], &entries), vec![0, 2]);
    assert_eq!(collect_inputs(&vec![], &vec![]), Vec::<usize>::new());
}

#[test]
fn inputs_are_collected_and_sorted() {
    let probes = vec![
        Probe::File(input(0, "z.txt")),
        Probe::Missing,
        Probe::Directory(vec![input(1, "dir/b.png"), input(2, "dir/c.gif"), input(3, "dir/a.jpg")]),
        Probe::File(input(4, "b.png")),
    ];
    assert_eq!(collect_inputs(&probes, &vec![input(9, "images/x.png")]), vec![4, 3, 1, 0]);
}

#[test]
fn equal_paths_keep_their_order() {
    let probes = vec![
        Probe::File(input(0, "b//x.png")),
        Probe::File(input(1, "a.png")),
        Probe::File(input(2, "b/x.png")),
    ];
    assert_eq!(collect_inputs(&probes, &vec![]), vec![1, 0, 2]);
}

#[test]
fn sorting_follows_the_order_of_paths() {
    let texts = [
        "b/a.png", "/root.png", "../up.png", "./here.png", "a.png", "a/b.png", "a/b/c.png", "a-b.png",
        "a b/c.png", "\u{e9}.png", "ab.png", "a/B.png", "..", "/", "a/b.pn",
    ];
    let probes: Vec<Probe> =
        texts.iter().enumerate().map(|(i, t)| Probe::File(input(i, t))).collect();
    let mut wanted: Vec<(PathBuf, usize)> =
        texts.iter().enumerate().map(|(i, t)| (PathBuf::from(t), i)).collect();
    wanted.sort();
    let wanted: Vec<usize> = wanted.into_iter().map(|(_, i)| i).collect();
    assert_eq!(collect_inputs(&probes, &vec![]), wanted);
}

/// A file in a directory that begins with a prefix.
fn under(id: usize, prefix: PathPrefix) -> InputFile {
    let parts = vec![PathPart::Prefix(prefix), PathPart::RootDir, PathPart::Normal(b"a.png".to_vec())];
    InputFile { id, name: "a.png".to_string(), parts }
}

#[test]
fn prefixes_are_ordered_by_kind_first() {
    let text = |t: &str| t.as_bytes().to_vec();
    let probes = vec![
        Probe::File(input(0, "/a.png")),
        Probe::File(under(1, PathPrefix::Disk(b'D'))),
        Probe::File(under(2, PathPrefix::Disk(b'C'))),
        Probe::File(under(3, PathPrefix::Unc(text("server"), text("share")))),
        Probe::File(under(4, PathPrefix::Unc(text("server"), text("a")))),
        Probe::File(under(5, PathPrefix::Unc(text("serve"), text("z")))),
        Probe::File(under(6, PathPrefix::DeviceNs(text("COM1")))),
        Probe::File(under(7, PathPrefix::VerbatimDisk(b'Z'))),
        Probe::File(under(8, PathPrefix::VerbatimUnc(text("a"), text("b")))),
        Probe::File(under(9, PathPrefix::Verbatim(text("zz")))),
        Probe::File(under(10, PathPrefix::Disk(b'C'))),
    ];
    assert_eq!(collect_inputs(&probes, &vec![]), vec![9, 8, 7, 6, 5, 4, 3, 2, 10, 1, 0]);
}

/// Probes of files and directories for which the ids tell the paths.
fn sample_probes(choice: &[usize]) -> Vec<Probe> {
    let probe = |k: &usize| match k {
        0 => Probe::File(input(0, "m.png")),
        1 => Probe::Directory(vec![input(1, "d/z.png"), input(2, "d/a.jpg"), input(3, "d/x.txt")]),
        2 => Probe::Missing,
        3 => Probe::File(input(4, "a.txt")),
        _ => Probe::Directory(vec![input(5, "e/b.png"), input(6, "c/b.png")]),
    };
    choice.iter().map(probe).collect()
}

/// The paths of the files that a result names.
fn found(ids: Vec<usize>) -> Vec<&'static str> {
    let paths = ["m.png", "d/z.png", "d/a.jpg", "d/x.txt", "a.txt", "e/b.png", "c/b.png"];
    ids.into_iter().map(|id| paths[id]).collect()
}

#[test]
fn inputs_can_be_collected_in_parts() {
    let first = found(collect_inputs(&sample_probes(&[0, 1]), &vec![]));
    let second = found(collect_inputs(&sample_probes(&[3, 2, 4]), &vec![]));
    let both = found(collect_inputs(&sample_probes(&[0, 1, 3, 2, 4]), &vec![]));
    let mut merged: Vec<PathBuf> = first.iter().chain(&second).map(PathBuf::from).collect();
    merged.sort();
    let both: Vec<PathBuf> = both.iter().map(PathBuf::from).collect();
    assert_eq!(both, merged);
}

#[test]
fn order_of_inputs_does_not_matter() {
    let expected = found(collect_inputs(&sample_probes(&[0, 1, 2, 3, 4]), &vec![]));
    assert_eq!(expected, vec!["a.txt", "c/b.png", "d/a.jpg", "d/z.png", "e/b.png", "m.png"]);
    for choice in [[4, 3, 2, 1, 0], [2, 4, 0, 3, 1], [1, 0, 3, 4, 2]] {
        assert_eq!(found(collect_inputs(&sample_probes(&choice), &vec![])), expected);
    }
}
