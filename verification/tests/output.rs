use puml::output::{is_png_path, output_path};

#[test]
fn single_diagram_keeps_the_path() {
    assert_eq!(output_path("out.svg", 0, 1), "out.svg");
}

#[test]
fn several_diagrams_are_numbered_from_one() {
    assert_eq!(output_path("out.svg", 0, 2), "out-1.svg");
    assert_eq!(output_path("out.svg", 1, 2), "out-2.svg");
    assert_eq!(output_path("docs/out.png", 11, 12), "docs/out-12.png");
}

#[test]
fn a_path_without_extension_gets_none() {
    assert_eq!(output_path("diagram", 2, 3), "diagram-3");
}

#[test]
fn png_is_recognised_in_any_case() {
    assert!(is_png_path("a/b.png"));
    assert!(is_png_path("b.PNG"));
    assert!(!is_png_path("b.svg"));
    assert!(!is_png_path("png"));
    assert!(!is_png_path(".png"));
}
